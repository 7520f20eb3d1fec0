use blue2th_server::audio::AudioError;
use blue2th_server::auth::{AuthStore, PairError};
use blue2th_server::server::{
    admits, advertised_endpoint_from, advertised_service_from, advertised_url_from,
    bind_address, preferred_lan_ipv4, routes, ConnectError, HttpError, Ipv4Addr, DEFAULT_BIND,
    DEFAULT_PORT, TXT_KEY_ID, TXT_KEY_NAME,
};

fn authentication_failed() -> String {
    "Authentication Failed".to_string()
}

#[test]
fn test_connect_error_pairing_maps_to_conflict() {
    let err = HttpError::from_connect_error(&ConnectError::Pairing(
        "Authentication Timeout".to_string(),
    ));
    assert_eq!(err.status, 409);
}

#[test]
fn test_connect_error_pairing_is_never_bad_gateway() {
    for err in [
        ConnectError::Pairing(authentication_failed()),
        ConnectError::Pairing("Authentication Timeout".to_string()),
    ] {
        let mapped = HttpError::from_connect_error(&err);
        assert_ne!(
            mapped.status, 502,
            "502 is the Spotify upstream failure, got {:?}",
            mapped.message
        );
    }
}

#[test]
fn test_connect_error_bluetooth_maps_to_internal_error() {
    let err = HttpError::from_connect_error(&ConnectError::Bluetooth(
        "br-connection-page-timeout".to_string(),
    ));
    assert_eq!(err.status, 500);
}

#[test]
fn test_connect_error_keeps_the_bluez_message_on_both_arms() {
    let pairing = HttpError::from_connect_error(&ConnectError::Pairing(authentication_failed()));
    assert!(
        pairing.message.contains("Authentication Failed"),
        "the pairing failure must carry the BlueZ message, got {:?}",
        pairing.message
    );
    let other = HttpError::from_connect_error(&ConnectError::Bluetooth(
        "br-connection-page-timeout".to_string(),
    ));
    assert!(
        other.message.contains("br-connection-page-timeout"),
        "any other failure must carry the BlueZ message, got {:?}",
        other.message
    );
}

#[test]
fn connect_error_text_names_the_pairing_step() {
    assert_eq!(
        ConnectError::Pairing(authentication_failed()).to_string(),
        "pairing failed: Authentication Failed"
    );
    assert_eq!(
        ConnectError::Bluetooth("br-connection-page-timeout".to_string()).to_string(),
        "br-connection-page-timeout"
    );
}

#[test]
fn test_bind_address_prefers_the_env_override() {
    assert_eq!(
        bind_address(
            Some("0.0.0.0:4000".to_string()),
            Some(Ipv4Addr::new(192, 168, 1, 107))
        ),
        "0.0.0.0:4000"
    );
}

#[test]
fn test_bind_address_uses_the_detected_lan_address() {
    assert_eq!(
        bind_address(None, Some(Ipv4Addr::new(192, 168, 1, 107))),
        format!("192.168.1.107:{DEFAULT_PORT}")
    );
}

#[test]
fn test_bind_address_falls_back_to_every_interface() {
    assert_eq!(bind_address(None, None), DEFAULT_BIND);
}

#[test]
fn bind_address_spells_every_octet_in_full() {
    assert_eq!(
        bind_address(None, Some(Ipv4Addr::new(10, 0, 255, 9))),
        "10.0.255.9:4000"
    );
    assert_eq!(Ipv4Addr::new(0, 0, 0, 0).to_string(), "0.0.0.0");
}

#[test]
fn test_preferred_lan_ipv4_skips_loopback_and_link_local() {
    let candidates = [
        Ipv4Addr::new(127, 0, 0, 1),
        Ipv4Addr::new(169, 254, 3, 4),
        Ipv4Addr::new(192, 168, 1, 107),
    ];
    assert_eq!(
        preferred_lan_ipv4(&candidates),
        Some(Ipv4Addr::new(192, 168, 1, 107))
    );
}

#[test]
fn test_preferred_lan_ipv4_without_a_routable_address_is_none() {
    assert_eq!(preferred_lan_ipv4(&[Ipv4Addr::new(127, 0, 0, 1)]), None);
    assert_eq!(preferred_lan_ipv4(&[]), None);
}

#[test]
fn preferred_lan_ipv4_skips_the_unspecified_address_and_keeps_the_first_lan_one() {
    let candidates = [
        Ipv4Addr::new(0, 0, 0, 0),
        Ipv4Addr::new(169, 253, 1, 1),
        Ipv4Addr::new(10, 1, 2, 3),
    ];
    assert_eq!(
        preferred_lan_ipv4(&candidates),
        Some(Ipv4Addr::new(169, 253, 1, 1))
    );
}

#[test]
fn test_advertised_url_replaces_the_wildcard_with_the_lan_address() {
    let lan = Some(Ipv4Addr::new(192, 168, 1, 107));
    assert_eq!(
        advertised_url_from(DEFAULT_BIND, lan),
        "http://192.168.1.107:4000"
    );
    assert_eq!(
        advertised_url_from("[::]:4000", lan),
        "http://192.168.1.107:4000"
    );
}

#[test]
fn test_advertised_url_keeps_an_explicit_bind_address() {
    assert_eq!(
        advertised_url_from("10.1.2.3:4321", Some(Ipv4Addr::new(192, 168, 1, 107))),
        "http://10.1.2.3:4321"
    );
}

#[test]
fn test_advertised_url_without_a_lan_address_keeps_the_bind_address() {
    assert_eq!(advertised_url_from(DEFAULT_BIND, None), "http://0.0.0.0:4000");
    assert_eq!(advertised_url_from("no-port-here", None), "http://no-port-here");
}

#[test]
fn advertised_endpoint_splits_at_the_last_colon_and_rejects_ports_out_of_range() {
    assert_eq!(
        advertised_endpoint_from("[::]:4000", None),
        Some(("[::]".to_string(), 4000))
    );
    assert_eq!(advertised_endpoint_from("host:65536", None), None);
    assert_eq!(
        advertised_endpoint_from("host:+80", None),
        Some(("host".to_string(), 80))
    );
    assert_eq!(advertised_endpoint_from("host:", None), None);
    assert_eq!(advertised_url_from("host:99999", None), "http://host:99999");
}

#[test]
fn test_advertised_service_resolves_the_wildcard_bind_to_the_lan_address() {
    let lan = Some(Ipv4Addr::new(192, 168, 1, 107));
    let record = advertised_service_from(DEFAULT_BIND, lan, "backend-id-42", "blue2th-PC");
    assert_eq!(record.url, "http://192.168.1.107:4000");
    assert_eq!(
        record.url,
        advertised_url_from(DEFAULT_BIND, lan),
        "the mDNS record and the pairing QR must advertise the same address"
    );
}

#[test]
fn test_advertised_service_carries_the_host_and_port_it_announces() {
    let lan = Some(Ipv4Addr::new(192, 168, 1, 107));
    let record = advertised_service_from(DEFAULT_BIND, lan, "backend-id-42", "blue2th-PC");
    assert_eq!(
        record.endpoint,
        Some(("192.168.1.107".to_string(), 4000)),
        "a wildcard bind announces the detected LAN host, not 0.0.0.0"
    );
    let (host, port) = record.endpoint.clone().expect("just asserted");
    assert_eq!(record.url, format!("http://{host}:{port}"));

    let explicit = advertised_service_from("10.1.2.3:4321", lan, "backend-id-42", "Salon");
    assert_eq!(
        explicit.endpoint,
        Some(("10.1.2.3".to_string(), 4321)),
        "an explicit bind address is announced as-is"
    );
}

#[test]
fn test_advertised_service_without_a_usable_port_has_no_endpoint() {
    for bind in ["no-port-here", "0.0.0.0:not-a-port"] {
        let record = advertised_service_from(bind, None, "backend-id-42", "blue2th-PC");
        assert_eq!(record.endpoint, None, "{bind} carries no port to announce");
        assert_eq!(
            record.url,
            format!("http://{bind}"),
            "{bind} is still shown verbatim in the banner"
        );
    }
}

#[test]
fn test_advertised_service_carries_the_id_and_the_name_txt_records() {
    let record = advertised_service_from(
        "10.1.2.3:4321",
        Some(Ipv4Addr::new(192, 168, 1, 107)),
        "backend-id-42",
        "Salon",
    );
    assert_eq!(
        record.url, "http://10.1.2.3:4321",
        "an explicit bind address is advertised as-is"
    );
    assert!(
        record
            .txt
            .contains(&(TXT_KEY_ID.to_string(), "backend-id-42".to_string())),
        "the id must be published, or the app cannot repair an address: {:?}",
        record.txt
    );
    assert!(
        record
            .txt
            .contains(&(TXT_KEY_NAME.to_string(), "Salon".to_string())),
        "the configured name must be published: {:?}",
        record.txt
    );
}

#[test]
fn txt_records_are_keyed_id_and_name() {
    assert_eq!(TXT_KEY_ID, "id");
    assert_eq!(TXT_KEY_NAME, "name");
}

#[test]
fn only_health_and_pair_are_public_routes() {
    let table = routes();
    assert_eq!(table.len(), 30);
    let public: Vec<(&str, &str)> = table
        .iter()
        .filter(|r| r.public)
        .map(|r| (r.method, r.path))
        .collect();
    assert_eq!(public, vec![("GET", "/health"), ("POST", "/pair")]);
    assert!(table
        .iter()
        .any(|r| r.method == "POST" && r.path == "/config" && !r.public));
}

#[test]
fn guarded_routes_need_the_token_and_public_ones_do_not() {
    let store = AuthStore::with_token("tok-123");
    let table = routes();
    let health = table.iter().find(|r| r.path == "/health").expect("listed");
    let devices = table.iter().find(|r| r.path == "/devices").expect("listed");
    assert!(admits(health, &store, None));
    assert!(!admits(devices, &store, None));
    assert!(!admits(devices, &store, Some("Bearer wrong")));
    assert!(admits(devices, &store, Some("Bearer tok-123")));
}

#[test]
fn http_errors_carry_their_status_and_message() {
    let e = HttpError::not_paired();
    assert_eq!(e.status, 401);
    assert_eq!(e.message, "not paired — pair this app with the backend first");
    let refused = HttpError::pair_refused(PairError::Rejected);
    assert_eq!(refused.status, 401);
    assert_eq!(refused.message, PairError::Rejected.to_string());
    let body = HttpError::invalid_pair_body("missing field `code`");
    assert_eq!(body.status, 400);
    assert_eq!(body.message, "invalid pair body: missing field `code`");
    assert_eq!(HttpError::from_bluetooth("no adapter".to_string()).status, 500);
    let no_speaker = HttpError::from_audio_error(&AudioError::NoSpeakerConnected);
    assert_eq!(no_speaker.status, 400);
    assert_eq!(no_speaker.message, "no speaker connected");
    let pw = HttpError::from_audio_error(&AudioError::PipeWire("down".to_string()));
    assert_eq!(pw.status, 500);
    assert_eq!(pw.message, "PipeWire error: down");
}
