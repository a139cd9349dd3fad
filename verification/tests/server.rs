use nemo::mailbox::TtlBucket;
use nemo::server::{
    authorize_token, binding_action, burn_if_share, envelope_expiry, BindingAction, Limits, Mailbox,
    PrekeyStock, ReplayWindow, ServerError, TokenKind, TokenTable, CONTACT_GRACE_SECS, FETCH_LIMIT_MAX,
    HPKE_ENC_WINDOW, MAILBOX_MAX_AGE_SECS, MAILBOX_MAX_BYTES, RATE_PER_MIN,
};

fn tok(b: u8) -> [u8; 32] {
    [b; 32]
}

#[test]
fn default_limits() {
    let l = Limits::default();
    assert_eq!(l.mailbox_max_bytes, MAILBOX_MAX_BYTES);
    assert_eq!(l.mailbox_max_age_secs, MAILBOX_MAX_AGE_SECS);
    assert_eq!(MAILBOX_MAX_AGE_SECS, 14 * 24 * 3600);
}

#[test]
fn mailbox_numbers_rows_from_one() {
    let mut m = Mailbox::new(tok(9));
    let l = Limits::default();
    assert_eq!(m.append(tok(1), vec![1], 100, TtlBucket::Default, l), 1);
    assert_eq!(m.append(tok(2), vec![2], 100, TtlBucket::Default, l), 2);
    let rows = m.fetch(0, 10, 100, l).unwrap();
    assert_eq!(rows.len(), 2);
    assert_eq!(rows[0].seq, 1);
    assert_eq!(rows[1].inner, vec![2]);
    assert_eq!(m.owner_pk(), tok(9));
}

#[test]
fn mailbox_idempotent_append_keeps_seq() {
    let mut m = Mailbox::new(tok(9));
    let l = Limits::default();
    let a = m.append(tok(1), vec![1, 2, 3], 100, TtlBucket::Default, l);
    let b = m.append(tok(1), vec![9, 9, 9], 200, TtlBucket::Default, l);
    assert_eq!(a, b);
    let rows = m.fetch(0, 10, 200, l).unwrap();
    assert_eq!(rows.len(), 1);
    assert_eq!(rows[0].inner, vec![1, 2, 3]);
}

#[test]
fn mailbox_fetch_after_cursor_and_ack() {
    let mut m = Mailbox::new(tok(9));
    let l = Limits::default();
    for i in 0..5u8 {
        m.append(tok(i), vec![i], 100, TtlBucket::Default, l);
    }
    let rows = m.fetch(2, 2, 100, l).unwrap();
    assert_eq!(rows.iter().map(|r| r.seq).collect::<Vec<_>>(), vec![3, 4]);
    m.ack(3);
    let rows = m.fetch(0, 10, 100, l).unwrap();
    assert_eq!(rows.iter().map(|r| r.seq).collect::<Vec<_>>(), vec![4, 5]);
}

#[test]
fn mailbox_fetch_limit_is_checked() {
    let mut m = Mailbox::new(tok(9));
    let l = Limits::default();
    assert_eq!(m.fetch(0, 0, 1, l).unwrap_err(), ServerError::FetchLimit);
    assert_eq!(m.fetch(0, FETCH_LIMIT_MAX + 1, 1, l).unwrap_err(), ServerError::FetchLimit);
    assert!(m.fetch(0, FETCH_LIMIT_MAX, 1, l).unwrap().is_empty());
}

#[test]
fn mailbox_ttl_expires_before_fetch() {
    let mut m = Mailbox::new(tok(9));
    let l = Limits::default();
    m.append(tok(1), vec![1], 1000, TtlBucket::Seconds60, l);
    m.append(tok(2), vec![2], 1000, TtlBucket::Hour, l);
    assert_eq!(m.fetch(0, 10, 1059, l).unwrap().len(), 2);
    let rows = m.fetch(0, 10, 1060, l).unwrap();
    assert_eq!(rows.len(), 1);
    assert_eq!(rows[0].seq, 2);
}

#[test]
fn mailbox_retention_drops_oldest() {
    let mut m = Mailbox::new(tok(9));
    let l = Limits { mailbox_max_bytes: 10, mailbox_max_age_secs: MAILBOX_MAX_AGE_SECS };
    m.append(tok(1), vec![0; 4], 1, TtlBucket::Default, l);
    m.append(tok(2), vec![0; 4], 1, TtlBucket::Default, l);
    m.append(tok(3), vec![0; 4], 1, TtlBucket::Default, l);
    let rows = m.fetch(0, 10, 1, l).unwrap();
    assert_eq!(rows.iter().map(|r| r.seq).collect::<Vec<_>>(), vec![2, 3]);
}

#[test]
fn expiry_is_capped_by_max_age() {
    assert_eq!(envelope_expiry(100, TtlBucket::Seconds60, 1000), 160);
    assert_eq!(envelope_expiry(100, TtlBucket::Hour, 1000), 1100);
    assert_eq!(envelope_expiry(100, TtlBucket::Default, 1000), 1100);
    assert_eq!(envelope_expiry(u64::MAX - 1, TtlBucket::Hour, 1000), u64::MAX);
}

#[test]
fn disabled_mailbox_reports_it() {
    let mut m = Mailbox::new(tok(9));
    assert!(!m.is_disabled());
    m.disable();
    assert!(m.is_disabled());
}

#[test]
fn share_token_allows_one_append_until_burned() {
    let mut t = TokenKind::Share { mailbox: tok(5), expires_at: 100, burned: false, reserved_prekey: None };
    assert_eq!(authorize_token(&mut t, 50).unwrap(), tok(5));
    burn_if_share(&mut t);
    assert_eq!(authorize_token(&mut t, 50).unwrap_err(), ServerError::Denied);
    let mut late = TokenKind::Share { mailbox: tok(5), expires_at: 100, burned: false, reserved_prekey: None };
    assert_eq!(authorize_token(&mut late, 100).unwrap_err(), ServerError::Denied);
}

#[test]
fn contact_capability_rate_limit_is_denied() {
    let mut t = TokenKind::Contact { mailbox: tok(7), grace_until: None, window_start: 0, window_count: 0 };
    for _ in 0..RATE_PER_MIN {
        assert_eq!(authorize_token(&mut t, 10).unwrap(), tok(7));
    }
    assert_eq!(authorize_token(&mut t, 10).unwrap_err(), ServerError::Denied);
    // A new minute opens a new window.
    assert_eq!(authorize_token(&mut t, 60).unwrap(), tok(7));
    // Burning applies to share tokens only.
    burn_if_share(&mut t);
    assert_eq!(authorize_token(&mut t, 61).unwrap(), tok(7));
}

#[test]
fn rotated_capability_expires_at_grace() {
    let mut t = TokenKind::Contact { mailbox: tok(7), grace_until: Some(500), window_start: 0, window_count: 0 };
    assert!(authorize_token(&mut t, 499).is_ok());
    assert_eq!(authorize_token(&mut t, 500).unwrap_err(), ServerError::Denied);
}

#[test]
fn token_table_last_entry_counts_and_share_burns() {
    let mut t = TokenTable::new();
    t.add_share(tok(1), tok(50), 100);
    assert_eq!(t.authorize(&tok(50), 10).unwrap(), tok(1));
    t.burn(&tok(50));
    assert_eq!(t.authorize(&tok(50), 10).unwrap_err(), ServerError::Denied);
    // A later entry for the same token wins.
    t.add_share(tok(2), tok(50), 100);
    assert_eq!(t.authorize(&tok(50), 10).unwrap(), tok(2));
    assert_eq!(t.authorize(&tok(99), 10).unwrap_err(), ServerError::Denied);
}

#[test]
fn contact_rotation_grace() {
    let mut t = TokenTable::new();
    let old = tok(40);
    let new = tok(41);
    t.mint_contact(tok(3), old, 0);
    t.mint_contact(tok(3), new, 0);
    assert_ne!(old, new);
    t.start_grace(&tok(3), &old, 100 + CONTACT_GRACE_SECS);
    assert!(t.authorize(&old, 100).is_ok());
    assert_eq!(t.authorize(&old, 100 + CONTACT_GRACE_SECS).unwrap_err(), ServerError::Denied);
    assert!(t.authorize(&new, 100 + CONTACT_GRACE_SECS).is_ok());
    // Another owner's grace request changes nothing.
    t.start_grace(&tok(4), &new, 5);
    assert!(t.authorize(&new, 100 + CONTACT_GRACE_SECS).is_ok());
}

#[test]
fn disabling_drops_the_owners_tokens() {
    let mut t = TokenTable::new();
    t.add_share(tok(1), tok(10), 100);
    let c = tok(42);
    t.mint_contact(tok(1), c, 0);
    t.add_share(tok(2), tok(20), 100);
    t.remove_owner(&tok(1));
    assert!(t.authorize(&tok(10), 1).is_err());
    assert!(t.authorize(&c, 1).is_err());
    assert_eq!(t.authorize(&tok(20), 1).unwrap(), tok(2));
}

#[test]
fn token_table_prekey_reservation() {
    let mut t = TokenTable::new();
    let mut stock = PrekeyStock::new();
    stock.publish(tok(1), vec![1]);
    stock.publish(tok(1), vec![2]);
    t.add_share(tok(1), tok(10), 100);
    t.add_share(tok(1), tok(11), 100);
    assert_eq!(t.fetch_prekey(&mut stock, &tok(10), 5).unwrap(), vec![1]);
    // The same token gets the same reserved prekey again.
    assert_eq!(t.fetch_prekey(&mut stock, &tok(10), 5).unwrap(), vec![1]);
    assert_eq!(t.fetch_prekey(&mut stock, &tok(11), 5).unwrap(), vec![2]);
    t.add_share(tok(1), tok(12), 100);
    assert_eq!(t.fetch_prekey(&mut stock, &tok(12), 5).unwrap_err(), ServerError::Denied);
    // Fetching did not spend the token.
    assert!(t.authorize(&tok(10), 5).is_ok());
    assert_eq!(t.fetch_prekey(&mut stock, &tok(10), 100).unwrap_err(), ServerError::Denied);
    stock.drop_owner(&tok(1));
    assert_eq!(stock.take(&tok(1)), None);
}

#[test]
fn hpke_replay_window() {
    let mut w = ReplayWindow::new();
    w.record(tok(1), 7);
    assert_eq!(w.lookup(&tok(1)), Some(7));
    assert_eq!(w.lookup(&tok(2)), None);
    for i in 0..(HPKE_ENC_WINDOW as u32 - 1) {
        let mut k = [0u8; 32];
        k[..4].copy_from_slice(&i.to_be_bytes());
        k[31] = 0xee;
        w.record(k, i as u64);
    }
    assert_eq!(w.lookup(&tok(1)), Some(7));
    w.record(tok(2), 8);
    assert_eq!(w.lookup(&tok(1)), None);
    assert_eq!(w.lookup(&tok(2)), Some(8));
}

#[test]
fn higher_binding_seq_elsewhere_disables() {
    assert_eq!(binding_action(3, 3, false), BindingAction::Keep);
    assert_eq!(binding_action(3, 2, false), BindingAction::Keep);
    assert_eq!(binding_action(3, 4, true), BindingAction::Record);
    assert_eq!(binding_action(3, 4, false), BindingAction::RecordAndDisable);
}
