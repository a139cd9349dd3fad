use nemo::group_host::{FanoutTarget, GroupHost};
use nemo::federation::{Enqueue, OUTBOUND_MAX_AGE_SECS};
use nemo::home_server::{
    allowed_intro_ttl, apply_sign_rotate, pin, pin_each_other, pump, refuse, BindingFacts, CardInfo,
    HomeServer, OpenedEnvelope, INTRO_TTL_30_MIN, SHARE_TTL_DEFAULT,
};
use nemo::mailbox::TtlBucket;
use nemo::server::{Limits, ServerError, RATE_PER_MIN};

const NOW: u64 = 1_700_000_000;
const HOME_ID: [u8; 32] = [0x5a; 32];

fn home() -> HomeServer {
    HomeServer::new(HOME_ID, Limits::default(), NOW)
}

fn register(home: &mut HomeServer, b: u8) -> [u8; 32] {
    let id = [b; 32];
    home.register(id, [b ^ 0xff; 32]).unwrap();
    id
}

fn key(tag: u8, n: u32) -> [u8; 32] {
    let mut k = [tag; 32];
    k[..4].copy_from_slice(&n.to_be_bytes());
    k
}

/// Ingests one opened envelope under a fresh encapsulated key and
/// idempotency token.
fn deliver(home: &mut HomeServer, n: u32, token: &[u8; 32], ttl: TtlBucket, body: Vec<u8>) -> Result<u64, ServerError> {
    home.ingest_opened(key(0xe0, n), token, key(0x1d, n), body, ttl)
}

fn card(home_id: [u8; 32], b: u8, seq: u64) -> CardInfo {
    CardInfo {
        identity_id: [b; 32],
        identity_public_key: [b ^ 0xff; 32],
        revocation_public_key: [b ^ 0x0f; 32],
        binding: BindingFacts { bytes: vec![0xb1, b, seq as u8], seq, server_id: home_id },
        share_token: [b ^ 0x33; 32],
    }
}

#[test]
fn share_token_burns_on_first_append() {
    let mut home = home();
    let id = register(&mut home, 1);
    let token = home.mint_share_token(&id, None).unwrap();
    assert_eq!(deliver(&mut home, 1, &token, TtlBucket::Default, vec![1, 2, 3]), Ok(1));
    assert_eq!(deliver(&mut home, 2, &token, TtlBucket::Default, vec![4]), Err(ServerError::Denied));
}

#[test]
fn share_token_prekey_does_not_consume() {
    let mut home = home();
    let id = register(&mut home, 1);
    home.publish_prekey(&id, b"prekey-blob".to_vec()).unwrap();
    let token = home.mint_share_token(&id, None).unwrap();
    assert_eq!(home.fetch_prekey(&token).unwrap(), b"prekey-blob");
    assert_eq!(home.fetch_prekey(&token).unwrap(), b"prekey-blob");
    deliver(&mut home, 1, &token, TtlBucket::Default, vec![1]).unwrap();
    assert_eq!(home.fetch_prekey(&token), Err(ServerError::Denied));
}

#[test]
fn idempotent_append_same_seq() {
    let mut home = home();
    let id = register(&mut home, 1);
    let cap = home.mint_contact_capability(&id).unwrap();
    let a = home.ingest_opened(key(0xe0, 7), &cap, key(0x1d, 7), vec![9], TtlBucket::Default).unwrap();
    let b = home.ingest_opened(key(0xe0, 7), &cap, key(0x1d, 7), vec![9], TtlBucket::Default).unwrap();
    assert_eq!(a, b);
}

#[test]
fn same_idempotency_token_under_new_key_keeps_seq() {
    let mut home = home();
    let id = register(&mut home, 1);
    let cap = home.mint_contact_capability(&id).unwrap();
    let a = home.ingest_opened(key(0xe0, 1), &cap, key(0x1d, 1), vec![9], TtlBucket::Default).unwrap();
    let b = home.ingest_opened(key(0xe0, 2), &cap, key(0x1d, 1), vec![9], TtlBucket::Default).unwrap();
    assert_eq!(a, 1);
    assert_eq!(b, 1);
    assert_eq!(home.fetch(&id, true, 0, 16).unwrap().len(), 1);
}

#[test]
fn owner_fetch_ack_not_capability() {
    let mut home = home();
    let id = register(&mut home, 1);
    let cap = home.mint_contact_capability(&id).unwrap();
    deliver(&mut home, 1, &cap, TtlBucket::Default, vec![1]).unwrap();

    // A request signed by a stranger does not check out.
    assert!(home.fetch(&id, false, 0, 16).is_err());

    let rows = home.fetch(&id, true, 0, 16).unwrap();
    assert_eq!(rows.len(), 1);
    assert_eq!(rows[0].seq, 1);

    // A stale request does not check out either.
    assert_eq!(home.fetch(&id, false, 0, 16).unwrap_err(), ServerError::OwnerAuth);

    home.ack(&id, true, 1).unwrap();
    assert!(home.fetch(&id, true, 0, 16).unwrap().is_empty());
}

#[test]
fn fetch_limit_and_unknown_owner() {
    let mut home = home();
    let id = register(&mut home, 1);
    assert_eq!(home.fetch(&id, true, 0, 0).unwrap_err(), ServerError::FetchLimit);
    assert_eq!(home.fetch(&[9; 32], true, 0, 16).unwrap_err(), ServerError::OwnerAuth);
    assert_eq!(home.ack(&[9; 32], true, 1).unwrap_err(), ServerError::OwnerAuth);
    assert_eq!(home.ack(&id, false, 1).unwrap_err(), ServerError::OwnerAuth);
}

#[test]
fn contact_capability_rate_limit_is_generic_denied() {
    let mut home = home();
    let id = register(&mut home, 1);
    let cap = home.mint_contact_capability(&id).unwrap();
    for i in 0..RATE_PER_MIN {
        deliver(&mut home, i as u32, &cap, TtlBucket::Default, vec![i as u8]).unwrap();
    }
    assert_eq!(
        deliver(&mut home, 1000, &cap, TtlBucket::Default, vec![0xff]),
        Err(ServerError::Denied)
    );
    // A minute later the window starts again.
    home.set_now(NOW + 60);
    assert!(deliver(&mut home, 1001, &cap, TtlBucket::Default, vec![0xfe]).is_ok());
}

#[test]
fn unknown_token_denied() {
    let mut home = home();
    register(&mut home, 1);
    assert_eq!(deliver(&mut home, 1, &[0x11; 32], TtlBucket::Default, vec![1]), Err(ServerError::Denied));
}

#[test]
fn ttl_expires_before_fetch() {
    let mut home = home();
    let id = register(&mut home, 1);
    let cap = home.mint_contact_capability(&id).unwrap();
    deliver(&mut home, 1, &cap, TtlBucket::Seconds60, vec![1]).unwrap();
    home.set_now(home.now() + 61);
    assert!(home.fetch(&id, true, 0, 16).unwrap().is_empty());
}

#[test]
fn retention_drops_oldest() {
    let mut home = HomeServer::new(
        HOME_ID,
        Limits { mailbox_max_bytes: 25_000, mailbox_max_age_secs: 14 * 24 * 3600 },
        NOW,
    );
    let id = register(&mut home, 1);
    let cap = home.mint_contact_capability(&id).unwrap();
    for i in 0..3u8 {
        deliver(&mut home, i as u32, &cap, TtlBucket::Default, vec![i; 10_000]).unwrap();
    }
    let rows = home.fetch(&id, true, 0, 16).unwrap();
    assert!(rows.len() < 3);
    assert_eq!(rows.last().map(|r| r.seq), Some(3));
}

#[test]
fn card_share_token_registers_and_bad_ttl_is_denied() {
    let mut home = home();
    let id = register(&mut home, 1);
    let token = [0xAB; 32];
    home.register_share_token(&id, token, None).unwrap();
    assert_eq!(deliver(&mut home, 1, &token, TtlBucket::Default, vec![1]), Ok(1));
    assert!(home.register_share_token(&id, [0xCD; 32], Some(99)).is_err());
}

#[test]
fn intro_ttl_is_thirty_minutes() {
    assert_eq!(SHARE_TTL_DEFAULT, 1800);
    assert!(allowed_intro_ttl(INTRO_TTL_30_MIN));
    assert!(!allowed_intro_ttl(99));
    assert!(!allowed_intro_ttl(0));
}

#[test]
fn share_token_expires_after_its_lifetime() {
    let mut home = home();
    let id = register(&mut home, 1);
    let token = home.mint_share_token(&id, Some(INTRO_TTL_30_MIN)).unwrap();
    home.set_now(NOW + INTRO_TTL_30_MIN);
    assert_eq!(deliver(&mut home, 1, &token, TtlBucket::Default, vec![1]), Err(ServerError::Denied));
}

#[test]
fn hpke_enc_replay_returns_original_seq() {
    let mut home = home();
    let id = register(&mut home, 1);
    let token = home.mint_share_token(&id, None).unwrap();
    let a = home.ingest_opened(key(0xe0, 5), &token, key(0x1d, 5), vec![1, 2, 3], TtlBucket::Default).unwrap();
    let b = home.ingest_opened(key(0xe0, 5), &token, key(0x1d, 5), vec![1, 2, 3], TtlBucket::Default).unwrap();
    assert_eq!(a, b);
    assert_eq!(a, 1);
}

#[test]
fn register_twice_and_denied_mailbox() {
    let mut home = home();
    let id = register(&mut home, 1);
    assert_eq!(home.register(id, [0; 32]), Err(ServerError::AlreadyRegistered));
    assert_eq!(home.mint_contact_capability(&[7; 32]), Err(ServerError::Denied));
    assert_eq!(home.publish_prekey(&[7; 32], vec![1]), Err(ServerError::Denied));
    assert_eq!(home.owner_pk(&id), Some([1 ^ 0xff; 32]));
    assert_eq!(home.owner_pk(&[7; 32]), None);
}

#[test]
fn discovery_register_and_fetch() {
    let mut home = home();
    let card = card(HOME_ID, 3, 1);
    let id = home.register_from_card(&card, true).unwrap();
    assert_eq!(id, card.identity_id);
    let row = home.discovery(&id).unwrap();
    assert_eq!(row.identity_public_key, card.identity_public_key);
    assert_eq!(row.binding_seq, 1);
    assert!(row.revocation.is_none());
    home.publish_prekey(&id, vec![1, 2, 3]).unwrap();
    assert_eq!(home.fetch_prekey(&card.share_token).unwrap(), vec![1, 2, 3]);
}

#[test]
fn card_for_another_home_or_unchecked_is_denied() {
    let mut home = home();
    assert_eq!(home.register_from_card(&card([0x77; 32], 3, 1), true), Err(ServerError::Denied));
    assert_eq!(home.register_from_card(&card(HOME_ID, 3, 1), false), Err(ServerError::Denied));
    assert_eq!(home.discovery(&[3; 32]).unwrap_err(), ServerError::Denied);
    home.register_from_card(&card(HOME_ID, 3, 1), true).unwrap();
    assert_eq!(home.register_from_card(&card(HOME_ID, 3, 1), true), Err(ServerError::AlreadyRegistered));
}

#[test]
fn higher_binding_seq_disables_old_mailbox() {
    let mut old = home();
    let card = card(HOME_ID, 4, 1);
    let id = old.register_from_card(&card, true).unwrap();
    let cap = old.mint_contact_capability(&id).unwrap();
    deliver(&mut old, 1, &cap, TtlBucket::Default, vec![1]).unwrap();

    let migrated = BindingFacts { bytes: vec![0xb2, 4, 2], seq: 2, server_id: [0x77; 32] };
    assert_eq!(old.binding_key(&id), Some(card.identity_public_key));
    old.observe_binding(&id, &migrated, true).unwrap();
    assert!(old.mailbox_disabled(&id));
    assert!(old.mint_contact_capability(&id).is_err());
    let row = old.discovery(&id).unwrap();
    assert_eq!(row.binding_seq, 2);
    assert_eq!(row.binding, vec![0xb2, 4, 2]);
}

#[test]
fn lower_or_unchecked_binding_changes_nothing() {
    let mut home = home();
    let id = home.register_from_card(&card(HOME_ID, 4, 5), true).unwrap();
    let older = BindingFacts { bytes: vec![1], seq: 3, server_id: [0x77; 32] };
    home.observe_binding(&id, &older, true).unwrap();
    assert!(!home.mailbox_disabled(&id));
    assert_eq!(home.discovery(&id).unwrap().binding_seq, 5);
    let newer = BindingFacts { bytes: vec![2], seq: 6, server_id: [0x77; 32] };
    assert_eq!(home.observe_binding(&id, &newer, false), Err(ServerError::Denied));
    assert_eq!(home.observe_binding(&[8; 32], &newer, true), Err(ServerError::Denied));
    assert!(!home.mailbox_disabled(&id));
}

#[test]
fn revocation_wipes_and_hosts_append() {
    let mut home = home();
    let mut host = GroupHost::new();
    let card = card(HOME_ID, 5, 1);
    let id = home.register_from_card(&card, true).unwrap();
    let created = host.create_group(
        [0x61; 32],
        FanoutTarget { delivery_capability: [1; 32], home_hpke_public: [0x62; 32] },
    ).unwrap();
    home.note_group_membership(&id, created.group_id);
    home.note_group_membership(&id, created.group_id);
    let stmt = vec![0x13, 5, 5, 5];
    let groups = home.ingest_revocation(&id, stmt.clone(), true).unwrap();
    assert_eq!(groups, vec![created.group_id]);
    assert!(home.mailbox_disabled(&id));
    let out = host.append_host_revocation(&created.group_id, &stmt).unwrap();
    assert_eq!(out.seq, 1);
    assert_eq!(home.discovery(&id).unwrap().revocation, Some(stmt));
}

#[test]
fn unchecked_revocation_is_denied() {
    let mut home = home();
    let id = home.register_from_card(&card(HOME_ID, 5, 1), true).unwrap();
    assert_eq!(home.ingest_revocation(&id, vec![1], false), Err(ServerError::Denied));
    assert_eq!(home.ingest_revocation(&[6; 32], vec![1], true), Err(ServerError::Denied));
    assert!(!home.mailbox_disabled(&id));
}

#[test]
fn rotated_contact_keeps_old_capability_for_grace() {
    let mut home = home();
    let id = register(&mut home, 1);
    let old_cap = home.mint_contact_capability(&id).unwrap();
    let new_cap = home.rotate_contact(&id, &old_cap, true).unwrap();
    assert_ne!(old_cap, new_cap);
    assert!(deliver(&mut home, 1, &old_cap, TtlBucket::Default, vec![1]).is_ok());
    home.set_now(NOW + 72 * 3600);
    assert_eq!(deliver(&mut home, 2, &old_cap, TtlBucket::Default, vec![2]), Err(ServerError::Denied));
    assert!(deliver(&mut home, 3, &new_cap, TtlBucket::Default, vec![3]).is_ok());
}

fn opened(n: u32, token: [u8; 32], body: Vec<u8>) -> OpenedEnvelope {
    OpenedEnvelope {
        enc: key(0xe0, n),
        delivery_capability: token,
        idempotency_token: key(0x1d, n),
        inner: body,
        ttl: TtlBucket::Default,
    }
}

#[test]
fn same_server_enqueue_ingests() {
    let mut home = home();
    let id = register(&mut home, 1);
    let cap = home.mint_contact_capability(&id).unwrap();
    let dest = home.server_id();
    assert_eq!(home.enqueue(dest, vec![0xee; 8], Ok(opened(1, cap, vec![1]))), Ok(Enqueue::Local(1)));
    assert_eq!(home.fetch(&id, true, 0, 16).unwrap().len(), 1);
    assert_eq!(home.outbound_len(), 0);
}

#[test]
fn enqueue_for_another_home_is_queued_and_deferred() {
    let mut home = home();
    assert_eq!(home.enqueue([0x77; 32], vec![1, 2], Err(ServerError::Denied)), Ok(Enqueue::Queued));
    assert_eq!(home.outbound_len(), 1);
    home.defer_outbound(NOW + 10);
    assert_eq!(home.outbound_len(), 1);
    // A failed opening of an envelope for this home is returned.
    let here = home.server_id();
    assert_eq!(home.enqueue(here, vec![3], Err(ServerError::Wire("hpke".to_string()))), Err(ServerError::Wire("hpke".to_string())));
    assert_eq!(home.outbound_len(), 1);
}

#[test]
fn enqueue_from_owner_requires_auth() {
    let mut home = home();
    let id = register(&mut home, 1);
    let cap = home.mint_contact_capability(&id).unwrap();
    let dest = home.server_id();
    assert_eq!(
        home.enqueue_from_owner(&id, false, dest, vec![1], Ok(opened(1, cap, vec![1]))),
        Err(ServerError::OwnerAuth)
    );
    assert_eq!(
        home.enqueue_from_owner(&id, true, dest, vec![1], Ok(opened(1, cap, vec![1]))),
        Ok(Enqueue::Local(1))
    );
}

/// A stand-in for HPKE sealing: the encapsulated key, the delivery
/// capability, the idempotency token, then the inner envelope.
fn seal(n: u32, cap: [u8; 32], body: &[u8]) -> Vec<u8> {
    let mut ct = key(0xe0, n).to_vec();
    ct.extend_from_slice(&cap);
    ct.extend_from_slice(&key(0x1d, n));
    ct.extend_from_slice(body);
    ct
}

fn open_sealed(ct: Vec<u8>) -> Result<OpenedEnvelope, ServerError> {
    if ct.len() < 96 {
        return Err(ServerError::Denied);
    }
    let mut enc = [0u8; 32];
    enc.copy_from_slice(&ct[..32]);
    let mut cap = [0u8; 32];
    cap.copy_from_slice(&ct[32..64]);
    let mut idem = [0u8; 32];
    idem.copy_from_slice(&ct[64..96]);
    Ok(OpenedEnvelope {
        enc,
        delivery_capability: cap,
        idempotency_token: idem,
        inner: ct[96..].to_vec(),
        ttl: TtlBucket::Default,
    })
}

fn two_homes() -> (HomeServer, HomeServer) {
    (
        HomeServer::new([0xaa; 32], Limits::default(), NOW),
        HomeServer::new([0xbb; 32], Limits::default(), NOW),
    )
}

#[test]
fn a_forwards_to_b() {
    let (mut a, mut b) = two_homes();
    pin_each_other(&mut a, &mut b, [0x1a; 32], [0x1b; 32]).unwrap();
    let bob = register(&mut b, 2);
    let cap = b.mint_contact_capability(&bob).unwrap();
    let dest = b.server_id();
    assert_eq!(a.enqueue(dest, seal(1, cap, &[9, 9]), Err(ServerError::Denied)), Ok(Enqueue::Queued));
    let stats = pump(&mut a, &mut b, &open_sealed).unwrap();
    assert_eq!(stats.delivered, 1);
    assert_eq!(a.outbound_len(), 0);
    let rows = b.fetch(&bob, true, 0, 16).unwrap();
    assert_eq!(rows.len(), 1);
    assert_eq!(&rows[0].inner[..2], &[9, 9]);
}

#[test]
fn unpinned_peer_cannot_pump() {
    let (mut a, mut b) = two_homes();
    let bob = register(&mut b, 2);
    let cap = b.mint_contact_capability(&bob).unwrap();
    let dest = b.server_id();
    a.enqueue(dest, seal(1, cap, &[1]), Err(ServerError::Denied)).unwrap();
    assert_eq!(pump(&mut a, &mut b, &open_sealed).unwrap_err(), ServerError::NotPinned);
    assert_eq!(a.outbound_len(), 1);
}

#[test]
fn refuse_stops_retry() {
    let (mut a, mut b) = two_homes();
    pin_each_other(&mut a, &mut b, [0x1a; 32], [0x1b; 32]).unwrap();
    let bob = register(&mut b, 2);
    let cap = b.mint_contact_capability(&bob).unwrap();
    let dest = b.server_id();
    a.enqueue(dest, seal(1, cap, &[1]), Err(ServerError::Denied)).unwrap();
    let a_id = a.server_id();
    refuse(&mut b, &a_id);
    assert!(b.peer_refused(&a_id));
    assert_eq!(pump(&mut a, &mut b, &open_sealed).unwrap_err(), ServerError::PeerRefused);
    assert_eq!(a.outbound_len(), 1);
}

#[test]
fn outbound_expires_after_14_days() {
    let (mut a, mut b) = two_homes();
    pin_each_other(&mut a, &mut b, [0x1a; 32], [0x1b; 32]).unwrap();
    let bob = register(&mut b, 2);
    let cap = b.mint_contact_capability(&bob).unwrap();
    let dest = b.server_id();
    a.enqueue(dest, seal(1, cap, &[1]), Err(ServerError::Denied)).unwrap();
    a.set_now(NOW + OUTBOUND_MAX_AGE_SECS + 1);
    let stats = pump(&mut a, &mut b, &open_sealed).unwrap();
    assert_eq!(stats.expired, 1);
    assert_eq!(a.outbound_len(), 0);
}

#[test]
fn hpke_replay_does_not_double_append() {
    let (mut a, mut b) = two_homes();
    pin_each_other(&mut a, &mut b, [0x1a; 32], [0x1b; 32]).unwrap();
    let bob = register(&mut b, 2);
    let cap = b.mint_contact_capability(&bob).unwrap();
    let dest = b.server_id();
    let outer = seal(3, cap, &[3]);
    a.enqueue(dest, outer.clone(), Err(ServerError::Denied)).unwrap();
    pump(&mut a, &mut b, &open_sealed).unwrap();
    a.enqueue(dest, outer, Err(ServerError::Denied)).unwrap();
    pump(&mut a, &mut b, &open_sealed).unwrap();
    let rows = b.fetch(&bob, true, 0, 16).unwrap();
    assert_eq!(rows.len(), 1);
}

#[test]
fn unopenable_envelope_is_refused_and_dropped() {
    let (mut a, mut b) = two_homes();
    pin_each_other(&mut a, &mut b, [0x1a; 32], [0x1b; 32]).unwrap();
    let dest = b.server_id();
    a.enqueue(dest, vec![7; 40], Err(ServerError::Denied)).unwrap();
    let stats = pump(&mut a, &mut b, &open_sealed).unwrap();
    assert_eq!(stats.failed, 1);
    assert_eq!(stats.delivered, 0);
    assert_eq!(a.outbound_len(), 0);
}

#[test]
fn sign_rotate_updates_pin() {
    let (mut a, mut b) = two_homes();
    pin_each_other(&mut a, &mut b, [0x1a; 32], [0x1b; 32]).unwrap();
    let b_id = b.server_id();
    assert_eq!(a.bundle_pin(&b_id), Some([0x1b; 32]));
    apply_sign_rotate(&mut a, &b_id, [0x2b; 32], Ok(())).unwrap();
    assert_eq!(a.bundle_pin(&b_id), Some([0x2b; 32]));
    assert_eq!(apply_sign_rotate(&mut a, &[0x99; 32], [0x2b; 32], Ok(())), Err(ServerError::NotPinned));
    assert_eq!(
        apply_sign_rotate(&mut a, &b_id, [0x3b; 32], Err(ServerError::Denied)),
        Err(ServerError::Denied)
    );
    assert_eq!(a.bundle_pin(&b_id), Some([0x2b; 32]));
}

#[test]
fn pinning_self_or_twice_changes_nothing() {
    let (mut a, _b) = two_homes();
    let own = a.server_id();
    pin(&mut a, own, [1; 32], Ok(())).unwrap();
    assert_eq!(a.bundle_pin(&own), None);
    pin(&mut a, [0x44; 32], [2; 32], Ok(())).unwrap();
    pin(&mut a, [0x44; 32], [3; 32], Ok(())).unwrap();
    assert_eq!(a.bundle_pin(&[0x44; 32]), Some([2; 32]));
    assert_eq!(pin(&mut a, [0x45; 32], [2; 32], Err(ServerError::Denied)), Err(ServerError::Denied));
    assert_eq!(a.bundle_pin(&[0x45; 32]), None);
}

#[test]
fn backoff_defers_until_next_attempt() {
    let (mut a, mut b) = two_homes();
    pin_each_other(&mut a, &mut b, [0x1a; 32], [0x1b; 32]).unwrap();
    let bob = register(&mut b, 2);
    let cap = b.mint_contact_capability(&bob).unwrap();
    let dest = b.server_id();
    a.enqueue(dest, seal(1, cap, &[1]), Err(ServerError::Denied)).unwrap();
    a.defer_outbound(NOW + 10);
    let stats = pump(&mut a, &mut b, &open_sealed).unwrap();
    assert_eq!(stats.deferred, 1);
    assert_eq!(stats.delivered, 0);
    assert_eq!(a.outbound_len(), 1);
}
