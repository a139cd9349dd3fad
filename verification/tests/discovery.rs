use nemo::discovery::{discovery_due, distinct_ids, group_extras, DISCOVERY_REFRESH_SECS};
use nemo::discovery::{
    group_origin, resolve_contact, revoked_contact_ids, CardFacts, DiscoveryFacts,
    RevocationFacts,
};
use nemo::error::CoreError;
use nemo::home::HostCred;
use nemo::home_state::{ContactPin, HostGroup, StoredContact};

fn card(seq: u64) -> CardFacts {
    CardFacts { identity_public_key: [1; 32], revocation_public_key: [2; 32], binding_seq: seq }
}

fn disc(seq: u64, revoked: bool) -> DiscoveryFacts {
    DiscoveryFacts { identity_public_key: [1; 32], revocation_public_key: [2; 32], binding_seq: seq, revoked }
}

#[test]
fn resolve_uses_discovery_when_it_is_current() {
    assert_eq!(resolve_contact(Ok(()), &card(3), Ok(()), &disc(3, false)), Ok(disc(3, false)));
    assert_eq!(resolve_contact(Ok(()), &card(3), Ok(()), &disc(5, false)), Ok(disc(5, false)));
    assert_eq!(resolve_contact(Ok(()), &card(3), Ok(()), &disc(2, false)), Err(CoreError::BindingDowngrade));
    assert_eq!(resolve_contact(Ok(()), &card(3), Ok(()), &disc(9, true)), Err(CoreError::Revoked));
    let mut other = disc(3, false);
    other.revocation_public_key = [7; 32];
    assert_eq!(resolve_contact(Ok(()), &card(3), Ok(()), &other), Err(CoreError::IdentityMismatch));
    assert_eq!(resolve_contact(Err(CoreError::BadKey), &card(3), Ok(()), &disc(3, false)), Err(CoreError::BadKey));
    assert_eq!(resolve_contact(Ok(()), &card(3), Err(CoreError::Denied), &disc(3, false)), Err(CoreError::Denied));
}

#[test]
fn pin_accepts_higher_seq_only() {
    let mut pin = ContactPin::from_card([9; 32], &card(4));
    assert_eq!(pin.seq, 4);
    assert_eq!(pin.refresh(Ok(()), &disc(6, false)), Ok(disc(6, false)));
    assert_eq!(pin.seq, 6);
    assert_eq!(pin.refresh(Ok(()), &disc(5, false)), Err(CoreError::BindingDowngrade));
    assert_eq!(pin.seq, 6);
    assert_eq!(pin.refresh(Ok(()), &disc(7, true)), Err(CoreError::Revoked));
    assert_eq!(pin.seq, 6);
    let mut stranger = disc(8, false);
    stranger.identity_public_key = [3; 32];
    assert_eq!(pin.refresh(Ok(()), &stranger), Err(CoreError::IdentityMismatch));
    assert_eq!(pin.refresh(Err(CoreError::BadKey), &disc(8, false)), Err(CoreError::BadKey));
    assert_eq!(pin.seq, 6);
    assert_eq!(pin.identity_id, [9; 32]);
}

fn contact(id: u8, revoked: bool) -> StoredContact {
    StoredContact {
        pin: ContactPin { identity_id: [id; 32], identity_public_key: [0; 32], revocation_public_key: [0; 32], seq: 0 },
        delivery_capability: [0; 32],
        dest_hpke: [0; 32],
        last_discovery_unix: 0,
        revoked,
        home_origin: String::new(),
    }
}

#[test]
fn revoked_ids_in_order() {
    let cs = vec![contact(1, true), contact(2, false), contact(3, true)];
    assert_eq!(revoked_contact_ids(&cs), vec![[1; 32], [3; 32]]);
    assert!(revoked_contact_ids(&vec![]).is_empty());
}

#[test]
fn group_origin_first_match_or_home() {
    let g = |id: u8, base: &str| HostGroup {
        group_id: [id; 32],
        cred: HostCred { credential_id: [0; 32], credential_secret: [0; 32] },
        host_base: base.into(),
    };
    let gs = vec![g(1, "https://a"), g(2, "https://b"), g(1, "https://c")];
    assert_eq!(group_origin(&gs, &[1; 32]), "https://a");
    assert_eq!(group_origin(&gs, &[2; 32]), "https://b");
    assert_eq!(group_origin(&gs, &[5; 32]), "");
}

#[test]
fn group_members_are_checked_twice_a_day() {
    assert!(discovery_due(None, 0));
    assert!(!discovery_due(Some(1000), 1000 + DISCOVERY_REFRESH_SECS - 1));
    assert!(discovery_due(Some(1000), 1000 + DISCOVERY_REFRESH_SECS));
    assert!(!discovery_due(Some(5000), 10));
}

#[test]
fn idle_check_looks_up_only_strangers_in_groups() {
    let members = vec![[1u8; 32], [2; 32], [3; 32], [4; 32], [2; 32]];
    let contacts = vec![contact(3, false)];
    assert_eq!(group_extras(&members, &[1; 32], &contacts), vec![[2u8; 32], [4; 32], [2; 32]]);
    assert!(group_extras(&vec![], &[1; 32], &contacts).is_empty());
}

#[test]
fn each_revoked_identity_is_removed_once() {
    let ids = vec![[5u8; 32], [6; 32], [5; 32], [7; 32], [6; 32]];
    assert_eq!(distinct_ids(&ids), vec![[5u8; 32], [6; 32], [7; 32]]);
}

#[test]
fn discovery_row_checks_its_revocation_statement() {
    let row = disc(3, true);
    let own = [7u8; 32];
    assert_eq!(row.verify(&own, Ok(()), None), Ok(()));
    assert_eq!(
        row.verify(&own, Err(CoreError::BadKey), None),
        Err(CoreError::BadKey)
    );
    let good = RevocationFacts { signature: Ok(()), identity_id: own };
    assert_eq!(row.verify(&own, Ok(()), Some(good)), Ok(()));
    let other = RevocationFacts { signature: Ok(()), identity_id: [8u8; 32] };
    assert_eq!(row.verify(&own, Ok(()), Some(other)), Err(CoreError::IdentityMismatch));
    let forged = RevocationFacts { signature: Err(CoreError::Revoked), identity_id: [8u8; 32] };
    assert_eq!(row.verify(&own, Ok(()), Some(forged)), Err(CoreError::Revoked));
}

#[test]
fn lower_seq_is_downgrade() {
    assert_eq!(resolve_contact(Ok(()), &card(2), Ok(()), &disc(1, false)), Err(CoreError::BindingDowngrade));
}

#[test]
fn revoked_refuses_session_and_admit() {
    assert_eq!(resolve_contact(Ok(()), &card(1), Ok(()), &disc(1, true)), Err(CoreError::Revoked));
    let mut pin = ContactPin::from_card([9; 32], &card(1));
    assert_eq!(pin.refresh(Ok(()), &disc(1, true)), Err(CoreError::Revoked));
}

#[test]
fn pin_accepts_higher_seq() {
    let mut pin = ContactPin::from_card([9; 32], &card(1));
    assert_eq!(pin.refresh(Ok(()), &disc(3, false)), Ok(disc(3, false)));
    assert_eq!(pin.seq, 3);
}

#[test]
fn resolve_uses_discovery_binding() {
    let b = resolve_contact(Ok(()), &card(1), Ok(()), &disc(1, false)).unwrap();
    assert_eq!(b.binding_seq, 1);
}
