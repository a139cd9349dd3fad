use nemo::cbor::{encode, Value};
use nemo::error::CoreError;
use nemo::home::{
    check_body, check_empty, check_status, host_origin_override, peer_http_origin,
    privacy_from_u64, privacy_to_u64, wakeup_url, HostAccept, HostCred, HttpResponse,
};
use nemo::privacy::PrivacyMode;

#[test]
fn https_home_wakeup_is_wss() {
    assert_eq!(wakeup_url("https://localhost:8443"), "wss://localhost:8443/v1/wakeup");
    assert_eq!(wakeup_url("http://127.0.0.1:8787"), "ws://127.0.0.1:8787/v1/wakeup");
}

#[test]
fn wakeup_url_without_scheme_appends_path() {
    assert_eq!(wakeup_url("home"), "home/v1/wakeup");
}

#[test]
fn peer_origin_stays_on_own_home_when_server_matches() {
    let sid = [1u8; 32];
    assert_eq!(
        peer_http_origin("other.example", sid, "local", sid, "http://127.0.0.1:9", None),
        "http://127.0.0.1:9"
    );
}

#[test]
fn peer_origin_uses_https_host_when_homes_differ() {
    let a = [1u8; 32];
    let b = [2u8; 32];
    assert_eq!(
        peer_http_origin("bob.example", b, "alice.example", a, "https://alice.example", None),
        "https://bob.example"
    );
    assert_eq!(
        peer_http_origin("home-b", b, "home-a", a, "http://home-a", None),
        "http://home-b"
    );
}

#[test]
fn peer_origin_override_wins() {
    let a = [1u8; 32];
    let b = [2u8; 32];
    let raw = "home-c=http://127.0.0.1:1, home-b = http://127.0.0.1:2/ ";
    assert_eq!(
        peer_http_origin("home-b", b, "home-a", a, "https://home-a", Some(raw)),
        "http://127.0.0.1:2"
    );
    assert_eq!(host_origin_override("home-x", raw), None);
    assert_eq!(host_origin_override("home-b", "broken,home-b=http://x"), None);
}

#[test]
fn status_maps_to_errors() {
    let res = |status: u16| HttpResponse { status, body: vec![7] };
    assert!(check_status(&res(200)).is_ok());
    assert!(check_empty(&res(204)).is_ok());
    assert_eq!(check_body(&res(200)).unwrap(), &[7u8][..]);
    assert_eq!(check_status(&res(401)), Err(CoreError::Denied));
    assert_eq!(check_status(&res(403)), Err(CoreError::Denied));
    assert_eq!(check_status(&res(409)), Err(CoreError::AlreadyRegistered));
    assert_eq!(check_body(&res(500)), Err(CoreError::HomeHttp(500)));
}

#[test]
fn privacy_codes_roundtrip() {
    for m in [PrivacyMode::Normal, PrivacyMode::Private, PrivacyMode::High, PrivacyMode::Maximum] {
        assert_eq!(privacy_from_u64(privacy_to_u64(m)).unwrap(), m);
    }
    assert_eq!(privacy_to_u64(PrivacyMode::High), 2);
    assert_eq!(privacy_from_u64(4), Err(CoreError::VaultCorrupt));
}

#[test]
fn host_accept_roundtrip() {
    let a = HostAccept {
        pending_id: [1; 32],
        cred: HostCred { credential_id: [2; 32], credential_secret: [3; 32] },
        invitee_binding: Some([4; 32]),
    };
    assert_eq!(HostAccept::decode(&a.encode()).unwrap(), a);
    let b = HostAccept { invitee_binding: None, ..a };
    assert_eq!(HostAccept::decode(&b.encode()).unwrap(), b);
    assert_eq!(HostAccept::decode(&[0x01]), Err(CoreError::VaultCorrupt));
}

#[test]
fn host_accept_bad_key_length_is_wire() {
    let bytes = encode(&Value::Dict(vec![
        (0, Value::Bytes(vec![1; 31])),
        (1, Value::Bytes(vec![2; 32])),
        (2, Value::Bytes(vec![3; 32])),
    ]));
    assert!(matches!(HostAccept::decode(&bytes), Err(CoreError::Wire(_))));
    let missing = encode(&Value::Dict(vec![(0, Value::Bytes(vec![1; 32]))]));
    assert_eq!(HostAccept::decode(&missing), Err(CoreError::VaultCorrupt));
}
