use nemo::turn::{issue, issue_at, TURN_TTL_SECS};

#[test]
fn username_is_expiry_and_nonce() {
    let c = issue_at(100, &[0u8; 16], b"turn-secret", "turn:relay.example:3478".into());
    assert_eq!(c.username, format!("3700:{}", "00".repeat(16)));
    assert_eq!(c.url, "turn:relay.example:3478");
    assert_eq!(c.ttl_secs, TURN_TTL_SECS);
}

#[test]
fn credential_is_hmac_sha1_base64() {
    let c = issue_at(100, &[0u8; 16], b"turn-secret", String::new());
    assert_eq!(c.credential, "gY0X35Jskd0YfYNGVQp2ZWOFeGA=");
    let d = issue_at(u64::MAX, &[0xff; 16], b"", String::new());
    assert_eq!(d.username, format!("18446744073709551615:{}", "ff".repeat(16)));
    assert_eq!(d.credential, "sePSeyWuf4smhVL6IjOeDPVeJqA=");
}

#[test]
fn issued_credentials_are_fresh() {
    let a = issue(b"k", "u".into()).unwrap();
    let b = issue(b"k", "u".into()).unwrap();
    assert_ne!(a.username, b.username);
    assert_eq!(a.credential.len(), 28);
    assert!(!a.username.is_empty());
}
