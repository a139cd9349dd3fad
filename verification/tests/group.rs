use nemo::error::CoreError;
use nemo::group::{
    ensure_fresh_update, handshake_verdict, needs_online_update, needs_scheduled_update,
    remove_verdict, CredentialIds, Processed, CIPHERSUITE, UPDATE_BEFORE_SEND, UPDATE_INTERVAL,
};

#[test]
fn suite_is_rfc_9420_0x0003() {
    assert_eq!(u16::from(CIPHERSUITE), 0x0003);
}

#[test]
fn refuse_send_if_update_older_than_72h() {
    assert!(ensure_fresh_update(1_000, 1_000 + UPDATE_BEFORE_SEND).is_ok());
    assert_eq!(
        ensure_fresh_update(1_000, 1_001 + UPDATE_BEFORE_SEND),
        Err(CoreError::StaleMlsUpdate)
    );
    assert!(ensure_fresh_update(5_000, 1_000).is_ok());
}

#[test]
fn update_schedule() {
    assert!(!needs_scheduled_update(0, UPDATE_INTERVAL - 1));
    assert!(needs_scheduled_update(0, UPDATE_INTERVAL));
    assert!(needs_scheduled_update(10, 5));
    assert!(needs_online_update(0, 86_400));
    assert!(!needs_online_update(0, 86_399));
}

#[test]
fn handshakes() {
    assert!(handshake_verdict(Processed::Commit { external: false, removes: 0 }).is_ok());
    assert_eq!(
        handshake_verdict(Processed::Commit { external: true, removes: 0 }),
        Err(CoreError::ExternalMlsJoin)
    );
    assert_eq!(
        handshake_verdict(Processed::Commit { external: false, removes: 1 }),
        Err(CoreError::UnframedRemove)
    );
    assert_eq!(handshake_verdict(Processed::ExternalJoinProposal), Err(CoreError::ExternalMlsJoin));
    assert_eq!(handshake_verdict(Processed::Proposal { reinit: true }), Err(CoreError::MlsReinit));
    assert!(matches!(handshake_verdict(Processed::Proposal { reinit: false }), Err(CoreError::Mls(_))));
    assert!(matches!(handshake_verdict(Processed::Application), Err(CoreError::Mls(_))));
}

#[test]
fn remove_bundle_ejects_named_credential() {
    let want = [5u8; 32];
    let commit = Processed::Commit { external: false, removes: 1 };
    assert!(remove_verdict(commit, &[Some(want)], &want).is_ok());
    assert_eq!(remove_verdict(commit, &[Some([6u8; 32])], &want), Err(CoreError::BadRemoveBundle));
    assert_eq!(remove_verdict(commit, &[None], &want), Err(CoreError::BadRemoveBundle));
    assert_eq!(
        remove_verdict(Processed::Commit { external: false, removes: 2 }, &[Some(want), Some(want)], &want),
        Err(CoreError::BadRemoveBundle)
    );
    assert!(matches!(remove_verdict(Processed::Application, &[], &want), Err(CoreError::Mls(_))));
}

#[test]
fn credential_ids_are_immutable() {
    let mut ids = CredentialIds::new();
    assert!(ids.note(&[1, 2], [9; 32]).is_ok());
    assert!(ids.note(&[1, 2], [9; 32]).is_ok());
    assert!(matches!(ids.note(&[1, 2], [8; 32]), Err(CoreError::Mls(_))));
    assert_eq!(ids.get(&[1, 2]), Some([9; 32]));
    assert!(ids.note(&[3], [8; 32]).is_ok());
    assert_eq!(ids.get(&[3]), Some([8; 32]));
    assert_eq!(ids.get(&[4]), None);
}
