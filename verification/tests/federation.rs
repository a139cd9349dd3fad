use nemo::federation::{
    accept_counter, back_off, reset_link, row_due, settle, take_counter, window_allows,
    window_count, Due, Incoming, LinkCounters, OutboundRow, PeerWindow, PumpStats, Sent,
    BACKOFF_CAP_SECS, OUTBOUND_MAX_AGE_SECS, PEER_RATE_PER_SEC,
};
use nemo::server::ServerError;

fn row(dest: u8, at: u64) -> OutboundRow {
    OutboundRow { dest: [dest; 32], outer: vec![1, 2], enqueued_at: at, next_attempt: at, backoff_secs: 1 }
}

#[test]
fn due_rows_by_peer_age_and_backoff() {
    let r = row(1, 1000);
    assert_eq!(row_due(&r, &[2; 32], 1000), Due::OtherPeer);
    assert_eq!(row_due(&r, &[1; 32], 1000), Due::Send);
    assert_eq!(row_due(&r, &[1; 32], 1000 + OUTBOUND_MAX_AGE_SECS), Due::Send);
    assert_eq!(row_due(&r, &[1; 32], 1001 + OUTBOUND_MAX_AGE_SECS), Due::Expired);
    let mut r2 = row(1, 1000);
    r2.next_attempt = 1010;
    assert_eq!(row_due(&r2, &[1; 32], 1009), Due::Deferred);
    assert_eq!(row_due(&r2, &[1; 32], 1010), Due::Send);
}

#[test]
fn backoff_doubles_to_the_cap() {
    let mut r = row(1, 0);
    back_off(&mut r, 100);
    assert_eq!(r.backoff_secs, 2);
    assert_eq!(r.next_attempt, 102);
    r.backoff_secs = 200;
    back_off(&mut r, 100);
    assert_eq!(r.backoff_secs, BACKOFF_CAP_SECS);
    assert_eq!(r.next_attempt, 100 + BACKOFF_CAP_SECS);
    back_off(&mut r, u64::MAX - 1);
    assert_eq!(r.next_attempt, u64::MAX);
}

#[test]
fn refuse_drops_failure_retries() {
    let mut stats = PumpStats::default();
    let mut r = row(1, 0);
    assert!(!settle(&mut r, Sent::Delivered, 5, &mut stats));
    assert!(!settle(&mut r, Sent::Refused, 5, &mut stats));
    assert_eq!(r.backoff_secs, 1);
    assert!(settle(&mut r, Sent::Failed, 5, &mut stats));
    assert_eq!(r.backoff_secs, 2);
    assert_eq!(r.next_attempt, 7);
    assert!(settle(&mut r, Sent::CounterGap, 5, &mut stats));
    assert_eq!(stats, PumpStats { delivered: 1, failed: 3, deferred: 0, expired: 0 });
}

#[test]
fn counters_replay_fresh_and_gap() {
    let mut l = LinkCounters { last_rx: 0, next_tx: 1 };
    assert_eq!(accept_counter(&mut l, 1), Ok(Incoming::Fresh));
    assert_eq!(accept_counter(&mut l, 1), Ok(Incoming::Replay));
    assert_eq!(accept_counter(&mut l, 3), Err(ServerError::CounterGap));
    assert_eq!(l.last_rx, 1);
    assert_eq!(take_counter(&mut l), 1);
    assert_eq!(take_counter(&mut l), 2);
    reset_link(&mut l);
    assert_eq!(l, LinkCounters { last_rx: 0, next_tx: 1 });
}

#[test]
fn peer_window_counts_per_second() {
    let mut w = PeerWindow { window_sec: 0, window_ok: 0 };
    for _ in 0..PEER_RATE_PER_SEC {
        assert!(window_allows(&mut w, 7));
        window_count(&mut w);
    }
    assert!(!window_allows(&mut w, 7));
    assert!(window_allows(&mut w, 8));
    assert_eq!(w.window_ok, 0);
}
