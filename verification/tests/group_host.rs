use nemo::group_host::{
    AdmitFacts, AppendKind, FanoutTarget, GroupHost, InviteFacts, MemberCred, STREAM_MAX_AGE_SECS,
    STREAM_MAX_BYTES,
};
use nemo::mailbox::TtlBucket;
use nemo::server::ServerError;

fn target(b: u8) -> FanoutTarget {
    FanoutTarget { delivery_capability: [b; 32], home_hpke_public: [b ^ 0x80; 32] }
}

fn invite(gid: [u8; 32], nonce: u8, ttl: u64) -> InviteFacts {
    InviteFacts { group_id: gid, nonce: [nonce; 32], ttl_secs: ttl, invitee_binding: None }
}

/// A group with a creator and one admitted joiner.
fn two_member_group(host: &mut GroupHost) -> ([u8; 32], MemberCred, MemberCred) {
    let created = host.create_group([1; 32], target(1)).unwrap();
    let gid = created.group_id;
    host.store_invite(&gid, &created.cred, &invite(gid, 9, 600), Ok(())).unwrap();
    let pj = host.accept(&gid, &[9; 32]).unwrap();
    let stmt = AdmitFacts { group_id: gid, pending_id: pj.pending_id };
    let id = host.admit_join(&gid, &created.cred, &stmt, Ok(()), [2; 32], target(2)).unwrap();
    assert_eq!(id, pj.cred.credential_id);
    (gid, created.cred, pj.cred)
}

#[test]
fn creator_appends_and_numbers_start_at_one() {
    let mut host = GroupHost::new();
    let created = host.create_group([1; 32], target(1)).unwrap();
    let a = host.append(&created.group_id, &created.cred, AppendKind::Copy, b"hello").unwrap();
    assert_eq!(a.seq, 1);
    assert_eq!(a.targets, vec![target(1)]);
    let b = host.append(&created.group_id, &created.cred, AppendKind::Copy, b"again").unwrap();
    assert_eq!(b.seq, 2);
    assert_eq!(host.next_seq(&created.group_id), Some(3));
}

#[test]
fn strangers_and_wrong_secrets_are_denied() {
    let mut host = GroupHost::new();
    let created = host.create_group([1; 32], target(1)).unwrap();
    let mut wrong = created.cred;
    wrong.credential_secret[0] ^= 1;
    assert_eq!(host.append(&created.group_id, &wrong, AppendKind::Copy, b"x").unwrap_err(), ServerError::Denied);
    assert_eq!(host.append(&[7; 32], &created.cred, AppendKind::Copy, b"x").unwrap_err(), ServerError::Denied);
    assert_eq!(host.append(&created.group_id, &created.cred, AppendKind::Other, b"x").unwrap_err(), ServerError::Denied);
}

#[test]
fn invites_are_single_use_and_expire() {
    let mut host = GroupHost::new();
    let created = host.create_group([1; 32], target(1)).unwrap();
    let gid = created.group_id;
    // Wrong group, bad signature: refused.
    assert_eq!(host.store_invite(&gid, &created.cred, &invite([5; 32], 1, 60), Ok(())), Err(ServerError::Denied));
    assert_eq!(
        host.store_invite(&gid, &created.cred, &invite(gid, 1, 60), Err(ServerError::Denied)),
        Err(ServerError::Denied)
    );
    host.store_invite(&gid, &created.cred, &invite(gid, 1, 60), Ok(())).unwrap();
    assert!(host.accept(&gid, &[1; 32]).is_ok());
    assert_eq!(host.accept(&gid, &[1; 32]).unwrap_err(), ServerError::Denied);
    host.store_invite(&gid, &created.cred, &invite(gid, 2, 60), Ok(())).unwrap();
    let now = host.now();
    host.set_now(now + 60);
    assert_eq!(host.accept(&gid, &[2; 32]).unwrap_err(), ServerError::Denied);
}

#[test]
fn admitted_member_receives_copies() {
    let mut host = GroupHost::new();
    let (gid, creator, joiner) = two_member_group(&mut host);
    let a = host.append(&gid, &joiner, AppendKind::Copy, b"hi").unwrap();
    assert_eq!(a.targets.len(), 2);
    assert!(a.targets.contains(&target(1)));
    assert!(a.targets.contains(&target(2)));
    assert_eq!(host.signing_pk(&gid, &joiner.credential_id), Some([2; 32]));
    let _ = creator;
}

#[test]
fn pending_join_expires_with_invite() {
    let mut host = GroupHost::new();
    let created = host.create_group([1; 32], target(1)).unwrap();
    let gid = created.group_id;
    host.store_invite(&gid, &created.cred, &invite(gid, 3, 100), Ok(())).unwrap();
    let pj = host.accept(&gid, &[3; 32]).unwrap();
    // The reserved credential is not live yet.
    assert_eq!(host.append(&gid, &pj.cred, AppendKind::Copy, b"x").unwrap_err(), ServerError::Denied);
    let now = host.now();
    host.set_now(now + 100);
    let stmt = AdmitFacts { group_id: gid, pending_id: pj.pending_id };
    assert_eq!(
        host.admit_join(&gid, &created.cred, &stmt, Ok(()), [2; 32], target(2)).unwrap_err(),
        ServerError::Denied
    );
}

#[test]
fn remove_bundle_ejects_the_named_credential_after_fanout() {
    let mut host = GroupHost::new();
    let (gid, creator, joiner) = two_member_group(&mut host);
    let kind = AppendKind::Remove { named: joiner.credential_id, sidecar: Ok(()) };
    let a = host.append(&gid, &creator, kind, b"bundle").unwrap();
    assert_eq!(a.targets.len(), 2);
    assert_eq!(host.append(&gid, &joiner, AppendKind::Copy, b"x").unwrap_err(), ServerError::Denied);
    let b = host.append(&gid, &creator, AppendKind::Copy, b"x").unwrap();
    assert_eq!(b.targets, vec![target(1)]);
    let bad = AppendKind::Remove { named: creator.credential_id, sidecar: Err(ServerError::PeerRefused) };
    assert_eq!(host.append(&gid, &creator, bad, b"x").unwrap_err(), ServerError::PeerRefused);
}

#[test]
fn signing_key_replace_updates_the_record() {
    let mut host = GroupHost::new();
    let created = host.create_group([1; 32], target(1)).unwrap();
    let gid = created.group_id;
    let kind = AppendKind::SigningReplace { new_pk: [6; 32], signature: Ok(()) };
    host.append(&gid, &created.cred, kind, b"replace").unwrap();
    assert_eq!(host.signing_pk(&gid, &created.cred.credential_id), Some([6; 32]));
}

#[test]
fn file_upload_first_wins_and_fetch_needs_membership() {
    let mut host = GroupHost::new();
    let (gid, creator, joiner) = two_member_group(&mut host);
    let token = [44u8; 32];
    let kind = AppendKind::Reserve { fetch_token: token, ttl: TtlBucket::Hour, size: 4 };
    host.append(&gid, &creator, kind, b"reserve").unwrap();
    let again = AppendKind::Reserve { fetch_token: token, ttl: TtlBucket::Hour, size: 4 };
    assert_eq!(host.append(&gid, &creator, again, b"reserve").unwrap_err(), ServerError::Denied);
    assert_eq!(host.fetch_file(&gid, &joiner, &token).unwrap_err(), ServerError::Denied);
    // Only the reserver, only the reserved size.
    assert_eq!(host.upload_file(&gid, &joiner, &token, vec![1, 2, 3, 4]), Err(ServerError::Denied));
    assert_eq!(host.upload_file(&gid, &creator, &token, vec![1, 2, 3]), Err(ServerError::Denied));
    host.upload_file(&gid, &creator, &token, vec![1, 2, 3, 4]).unwrap();
    assert_eq!(host.upload_file(&gid, &creator, &token, vec![5, 6, 7, 8]), Err(ServerError::Denied));
    assert_eq!(host.fetch_file(&gid, &joiner, &token).unwrap(), vec![1, 2, 3, 4]);
    let now = host.now();
    host.set_now(now + 3600);
    assert_eq!(host.fetch_file(&gid, &joiner, &token).unwrap_err(), ServerError::Denied);
}

#[test]
fn stream_budget_is_enforced() {
    let mut host = GroupHost::new();
    let created = host.create_group([1; 32], target(1)).unwrap();
    let gid = created.group_id;
    let big = vec![0u8; (STREAM_MAX_BYTES / 2) as usize];
    host.append(&gid, &created.cred, AppendKind::Copy, &big).unwrap();
    host.append(&gid, &created.cred, AppendKind::Copy, &big).unwrap();
    assert_eq!(host.append(&gid, &created.cred, AppendKind::Copy, b"x").unwrap_err(), ServerError::Denied);
    assert_eq!(host.append_host_revocation(&gid, b"").unwrap().seq, 3);
    assert_eq!(host.append_host_revocation(&[0; 32], b"").unwrap_err(), ServerError::Denied);
    assert_eq!(STREAM_MAX_AGE_SECS, 30 * 24 * 3600);
}

#[test]
fn fanout_refresh_changes_the_target() {
    let mut host = GroupHost::new();
    let created = host.create_group([1; 32], target(1)).unwrap();
    host.refresh_fanout(&created.group_id, &created.cred, target(3)).unwrap();
    let a = host.append(&created.group_id, &created.cred, AppendKind::Copy, b"x").unwrap();
    assert_eq!(a.targets, vec![target(3)]);
}

#[test]
fn group_file_budget_is_separate_from_stream() {
    let mut host = GroupHost::new();
    host.file_budget = 8;
    let created = host.create_group([9u8; 32], FanoutTarget {
        delivery_capability: [1u8; 32],
        home_hpke_public: [2u8; 32],
    }).unwrap();
    let token = [0x22u8; 32];
    let reserve = AppendKind::Reserve { fetch_token: token, ttl: TtlBucket::Day, size: 65_536 };
    let err = host.append(&created.group_id, &created.cred, reserve, b"reserve").unwrap_err();
    assert!(matches!(err, ServerError::Denied));
    // The stream itself still takes objects.
    assert!(host.append(&created.group_id, &created.cred, AppendKind::Copy, b"text").is_ok());
}

#[test]
fn file_budget_counts_every_reserve_of_a_group() {
    let mut host = GroupHost::new();
    host.file_budget = 10;
    let a = host.create_group([1; 32], target(1)).unwrap();
    let b = host.create_group([2; 32], target(2)).unwrap();
    let r1 = AppendKind::Reserve { fetch_token: [1; 32], ttl: TtlBucket::Hour, size: 6 };
    host.append(&a.group_id, &a.cred, r1, b"r").unwrap();
    let r2 = AppendKind::Reserve { fetch_token: [2; 32], ttl: TtlBucket::Hour, size: 4 };
    host.append(&a.group_id, &a.cred, r2, b"r").unwrap();
    let r3 = AppendKind::Reserve { fetch_token: [3; 32], ttl: TtlBucket::Hour, size: 1 };
    assert_eq!(host.append(&a.group_id, &a.cred, r3, b"r").unwrap_err(), ServerError::Denied);
    // Another group has a budget of its own.
    let r4 = AppendKind::Reserve { fetch_token: [4; 32], ttl: TtlBucket::Hour, size: 10 };
    host.append(&b.group_id, &b.cred, r4, b"r").unwrap();
    assert_eq!(GroupHost::new().file_budget, nemo::group_host::GROUP_FILE_MAX_BYTES);
}

#[test]
fn group_fanout_and_remove() {
    let mut host = GroupHost::new();
    let (gid, creator, joiner) = two_member_group(&mut host);
    let appended = host.append(&gid, &creator, AppendKind::Copy, &[0xaa, 0xbb]).unwrap();
    assert_eq!(appended.seq, 1);
    assert_eq!(appended.targets.len(), 2);
    assert!(appended.targets.contains(&target(1)) && appended.targets.contains(&target(2)));
    let kind = AppendKind::Remove { named: joiner.credential_id, sidecar: Ok(()) };
    let removed = host.append(&gid, &creator, kind, &[1, 2, 3]).unwrap();
    assert_eq!(removed.targets.len(), 2);
    assert!(matches!(
        host.append(&gid, &joiner, AppendKind::Copy, &[0xcc]),
        Err(ServerError::Denied)
    ));
}

#[test]
fn forged_invite_is_rejected() {
    let mut host = GroupHost::new();
    let created = host.create_group([1; 32], target(1)).unwrap();
    let gid = created.group_id;
    let forged = invite(gid, 3, 1800);
    assert!(matches!(
        host.store_invite(&gid, &created.cred, &forged, Err(ServerError::Denied)),
        Err(ServerError::Denied)
    ));
}

#[test]
fn group_file_reserve_upload_fetch() {
    let mut host = GroupHost::new();
    let created = host.create_group([1; 32], target(1)).unwrap();
    let gid = created.group_id;
    let token = [0x11u8; 32];
    let size = 65_536;
    let reserve = AppendKind::Reserve { fetch_token: token, ttl: TtlBucket::Day, size };
    host.append(&gid, &created.cred, reserve, b"reserve").unwrap();
    let body = vec![7u8; size];
    host.upload_file(&gid, &created.cred, &token, body.clone()).unwrap();
    assert_eq!(host.fetch_file(&gid, &created.cred, &token).unwrap(), body);
    assert!(host.upload_file(&gid, &created.cred, &token, body).is_err());
}
