use nemo::cbor::{encode, Value};
use nemo::error::CoreError;
use nemo::home::HostCred;
use nemo::home_state::{
    find_contact, insert_contact, order_ids, ContactPin, HomeState, HostGroup, IdOrder,
    StoredContact,
};
use nemo::privacy::PrivacyMode;

fn contact(id: u8, origin: &str) -> StoredContact {
    StoredContact {
        pin: ContactPin {
            identity_id: [id; 32],
            identity_public_key: [id ^ 1; 32],
            revocation_public_key: [id ^ 2; 32],
            seq: id as u64,
        },
        delivery_capability: [id ^ 3; 32],
        dest_hpke: [id ^ 4; 32],
        last_discovery_unix: 1000 + id as u64,
        revoked: id % 2 == 0,
        home_origin: origin.into(),
    }
}

fn sample() -> HomeState {
    let mut contacts = Vec::new();
    insert_contact(&mut contacts, contact(9, "https://b.example"));
    insert_contact(&mut contacts, contact(3, ""));
    insert_contact(&mut contacts, contact(6, "x"));
    HomeState {
        bundle: vec![0xa0],
        cursor: 42,
        contacts,
        groups: vec![HostGroup {
            group_id: [7; 32],
            cred: HostCred { credential_id: [8; 32], credential_secret: [9; 32] },
            host_base: "https://host.example".into(),
        }],
        home_base: "https://home.example".into(),
        privacy: PrivacyMode::High,
    }
}

#[test]
fn ids_order_bytewise() {
    let mut a = [0u8; 32];
    let mut b = [0u8; 32];
    assert_eq!(order_ids(&a, &b), IdOrder::Same);
    a[5] = 1;
    assert_eq!(order_ids(&a, &b), IdOrder::Above);
    b[4] = 1;
    assert_eq!(order_ids(&a, &b), IdOrder::Below);
}

#[test]
fn contacts_stay_sorted_and_unique() {
    let s = sample();
    let ids: Vec<u8> = s.contacts.iter().map(|c| c.pin.identity_id[0]).collect();
    assert_eq!(ids, vec![3, 6, 9]);
    let mut contacts = s.contacts;
    insert_contact(&mut contacts, contact(6, "replaced"));
    assert_eq!(contacts.len(), 3);
    assert_eq!(contacts[1].home_origin, "replaced");
    assert_eq!(find_contact(&contacts, &[9; 32]), Some(2));
    assert_eq!(find_contact(&contacts, &[1; 32]), None);
}

#[test]
fn home_state_roundtrip() {
    let s = sample();
    let back = HomeState::decode(&s.encode()).unwrap();
    assert_eq!(back.bundle, s.bundle);
    assert_eq!(back.cursor, 42);
    assert_eq!(back.contacts, s.contacts);
    assert_eq!(back.groups, s.groups);
    assert_eq!(back.home_base, s.home_base);
    assert_eq!(back.privacy, PrivacyMode::High);
    assert_eq!(back.encode(), s.encode());
}

fn state_map(extra: Vec<(u64, Value)>) -> Vec<u8> {
    let mut pairs = vec![
        (0, Value::Uint(1)),
        (1, Value::Bytes(vec![1])),
        (2, Value::Uint(0)),
        (3, Value::Array(vec![])),
        (4, Value::Array(vec![])),
    ];
    pairs.extend(extra);
    encode(&Value::Dict(pairs))
}

#[test]
fn older_states_default_origin_and_privacy() {
    let s = HomeState::decode(&state_map(vec![])).unwrap();
    assert_eq!(s.home_base, "");
    assert_eq!(s.privacy, PrivacyMode::Normal);
    assert!(s.contacts.is_empty());
}

#[test]
fn bad_states_are_refused() {
    let v2 = encode(&Value::Dict(vec![(0, Value::Uint(2))]));
    assert_eq!(HomeState::decode(&v2).unwrap_err(), CoreError::VaultCorrupt);
    assert_eq!(HomeState::decode(&state_map(vec![(6, Value::Uint(4))])).unwrap_err(), CoreError::VaultCorrupt);
    let short_group = Value::Array(vec![Value::Bytes(vec![1; 31]), Value::Bytes(vec![1; 32]), Value::Bytes(vec![1; 32])]);
    let mut pairs = vec![
        (0, Value::Uint(1)),
        (1, Value::Bytes(vec![1])),
        (2, Value::Uint(0)),
        (3, Value::Array(vec![])),
        (4, Value::Array(vec![short_group])),
    ];
    assert!(matches!(HomeState::decode(&encode(&Value::Dict(pairs))).unwrap_err(), CoreError::Wire(_)));
    pairs = vec![
        (0, Value::Uint(1)),
        (1, Value::Bytes(vec![1])),
        (2, Value::Uint(0)),
        (3, Value::Array(vec![Value::Uint(5)])),
        (4, Value::Array(vec![])),
    ];
    assert_eq!(HomeState::decode(&encode(&Value::Dict(pairs))).unwrap_err(), CoreError::VaultCorrupt);
    assert_eq!(HomeState::decode(&[0xff]).unwrap_err(), CoreError::VaultCorrupt);
}

#[test]
fn duplicate_contacts_keep_the_last() {
    let mut a = contact(4, "first");
    let b = contact(4, "second");
    a.home_origin = "first".into();
    let s = HomeState {
        bundle: vec![],
        cursor: 0,
        contacts: vec![a, b],
        groups: vec![],
        home_base: String::new(),
        privacy: PrivacyMode::Normal,
    };
    let back = HomeState::decode(&s.encode()).unwrap();
    assert_eq!(back.contacts.len(), 1);
    assert_eq!(back.contacts[0].home_origin, "second");
}

#[test]
fn home_base_loses_trailing_slashes() {
    let mut s = sample();
    s.set_home_base("https://h.example//");
    assert_eq!(s.home_base, "https://h.example");
    s.set_home_base("");
    assert_eq!(s.home_base, "");
}

#[test]
fn rehome_points_current_home_groups_at_old_origin() {
    let mut s = sample();
    s.groups.push(HostGroup {
        group_id: [5; 32],
        cred: HostCred { credential_id: [6; 32], credential_secret: [7; 32] },
        host_base: String::new(),
    });
    s.rehome(vec![0xb0, 0xb1], "https://new.example/");
    assert_eq!(s.bundle, vec![0xb0, 0xb1]);
    assert_eq!(s.cursor, 0);
    assert_eq!(s.home_base, "https://new.example");
    assert_eq!(s.groups[0].host_base, "https://host.example");
    assert_eq!(s.groups[1].host_base, "https://home.example");
    assert_eq!(s.groups[1].group_id, [5; 32]);
    assert_eq!(s.contacts.len(), 3);
}

#[test]
fn every_privacy_mode_is_taken() {
    let mut s = sample();
    for m in [PrivacyMode::Normal, PrivacyMode::Private, PrivacyMode::High, PrivacyMode::Maximum] {
        assert_eq!(s.set_privacy(m), Ok(()));
        assert_eq!(s.privacy, m);
        assert_eq!(s.home_base, "https://home.example");
    }
}
