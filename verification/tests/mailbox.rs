use nemo::error::CoreError;
use nemo::mailbox::{expect_ratchet, expect_type, messages_lost, random_token, MessageType};

#[test]
fn mailbox_seq_gap_is_loss() {
    assert!(!messages_lost(3, 4));
    assert!(messages_lost(3, 5));
    assert!(!messages_lost(0, 1));
}

#[test]
fn gap_at_the_top_of_the_range() {
    assert!(!messages_lost(u64::MAX, u64::MAX));
    assert!(messages_lost(0, u64::MAX));
}

#[test]
fn inner_types_are_checked() {
    let body = [1u8, 2, 3];
    assert_eq!(expect_type(MessageType::MlsApp, &body, MessageType::MlsApp).unwrap(), &body[..]);
    assert_eq!(
        expect_type(MessageType::MlsApp, &body, MessageType::MlsHandshake),
        Err(CoreError::WrongMailboxType)
    );
    assert!(expect_ratchet(MessageType::AttachmentDr, &body).is_ok());
    assert!(expect_ratchet(MessageType::DoubleRatchet, &body).is_ok());
    assert_eq!(expect_ratchet(MessageType::PreKey, &body), Err(CoreError::WrongMailboxType));
}

#[test]
fn random_tokens_differ() {
    assert_ne!(random_token().unwrap(), random_token().unwrap());
}
