use nemo::cbor::{encode, Value};
use nemo::error::CoreError;
use nemo::home::{HostAccept, HostCred};
use nemo::vault_lists::{load_invites, load_pending, save_invites, save_pending, PendingEntry};

fn accept(b: u8, bound: bool) -> HostAccept {
    HostAccept {
        pending_id: [b; 32],
        cred: HostCred { credential_id: [b ^ 1; 32], credential_secret: [b ^ 2; 32] },
        invitee_binding: if bound { Some([b ^ 3; 32]) } else { None },
    }
}

#[test]
fn pending_joins_roundtrip_in_order() {
    let entries = vec![
        PendingEntry { group_id: [9; 32], pending: vec![1, 2, 3], host: accept(5, false) },
        PendingEntry { group_id: [4; 32], pending: vec![], host: accept(6, true) },
    ];
    let bytes = save_pending(&entries);
    let back = load_pending(Some(&bytes)).unwrap();
    assert_eq!(back.len(), 2);
    assert_eq!(back[0].group_id, [9; 32]);
    assert_eq!(back[0].pending, vec![1, 2, 3]);
    assert_eq!(back[0].host, accept(5, false));
    assert_eq!(back[1].group_id, [4; 32]);
    assert_eq!(back[1].host, accept(6, true));
}

#[test]
fn nothing_stored_means_no_joins_or_invites() {
    assert!(load_pending(None).unwrap().is_empty());
    assert!(load_invites(None).unwrap().is_empty());
}

#[test]
fn malformed_pending_rows_are_corrupt() {
    let short_gid = encode(&Value::Array(vec![Value::Array(vec![
        Value::Bytes(vec![1; 31]),
        Value::Bytes(vec![]),
        Value::Bytes(accept(1, false).encode()),
    ])]));
    assert!(matches!(load_pending(Some(&short_gid)), Err(CoreError::VaultCorrupt)));
    let two = encode(&Value::Array(vec![Value::Array(vec![Value::Bytes(vec![1; 32]), Value::Bytes(vec![])])]));
    assert!(matches!(load_pending(Some(&two)), Err(CoreError::VaultCorrupt)));
    let bad_host = encode(&Value::Array(vec![Value::Array(vec![
        Value::Bytes(vec![1; 32]),
        Value::Bytes(vec![]),
        Value::Bytes(vec![0xff]),
    ])]));
    assert!(matches!(load_pending(Some(&bad_host)), Err(CoreError::VaultCorrupt)));
    let map = encode(&Value::Dict(vec![]));
    assert!(matches!(load_pending(Some(&map)), Err(CoreError::VaultCorrupt)));
}

#[test]
fn invites_roundtrip_and_reject_non_bytes() {
    let invites = vec![vec![0x10, 0x11], vec![], vec![0x20]];
    let bytes = save_invites(&invites);
    assert_eq!(bytes, encode(&Value::Array(vec![
        Value::Bytes(vec![0x10, 0x11]),
        Value::Bytes(vec![]),
        Value::Bytes(vec![0x20]),
    ])));
    assert_eq!(load_invites(Some(&bytes)).unwrap(), invites);
    let mixed = encode(&Value::Array(vec![Value::Bytes(vec![1]), Value::Uint(2)]));
    assert!(matches!(load_invites(Some(&mixed)), Err(CoreError::VaultCorrupt)));
}
