use nemo::privacy::{uniform, uniform_from};
use nemo::error::CoreError;
use nemo::privacy::{
    calls_allowed, hop_for, reject_maximum, EnvelopeSink, Hop, MemSink, PrivacyMode,
    PrivacyTransport, WakeCoalesce, PRIVATE_BATCH_MAX_MS, PRIVATE_EXTRA_MAX_MS,
    PRIVATE_EXTRA_MIN_MS, WAKE_COALESCE_MS,
};

fn sealed() -> Vec<u8> {
    vec![0x42, 1, 2, 3, 0xff]
}

#[test]
fn normal_emits_immediately_unchanged() {
    let want = sealed();
    let mut t = PrivacyTransport::new(PrivacyMode::Normal, MemSink::default());
    assert_eq!(t.hop(), Hop::Direct);
    t.send(want.clone()).unwrap();
    assert_eq!(t.pending_count(), 0);
    assert_eq!(t.sink().sent, vec![(Hop::Direct, want)]);
}

#[test]
fn private_holds_then_flushes_unchanged() {
    let want = sealed();
    let mut t = PrivacyTransport::new(PrivacyMode::Private, MemSink::default());
    t.send(want.clone()).unwrap();
    assert_eq!(t.pending_count(), 1);
    assert!(t.sink().sent.is_empty());
    assert_eq!(t.advance(0).unwrap(), 0);
    assert_eq!(t.pending_count(), 1);
    let flushed = t.advance(PRIVATE_EXTRA_MAX_MS + PRIVATE_BATCH_MAX_MS).unwrap();
    assert_eq!(flushed, 1);
    assert_eq!(t.pending_count(), 0);
    assert_eq!(t.sink().sent, vec![(Hop::Direct, want)]);
}

#[test]
fn private_delay_is_at_least_extra_min() {
    let mut t = PrivacyTransport::new(PrivacyMode::Private, MemSink::default());
    t.send(sealed()).unwrap();
    assert_eq!(t.advance(PRIVATE_EXTRA_MIN_MS.saturating_sub(1)).unwrap(), 0);
}

#[test]
fn high_uses_tor_hop_and_same_timing() {
    let want = sealed();
    assert_eq!(hop_for(PrivacyMode::High), Hop::Tor);
    let mut t = PrivacyTransport::new(PrivacyMode::High, MemSink::default());
    assert_eq!(t.hop(), Hop::Tor);
    t.send(want.clone()).unwrap();
    t.advance(PRIVATE_EXTRA_MAX_MS + PRIVATE_BATCH_MAX_MS).unwrap();
    assert_eq!(t.sink().sent, vec![(Hop::Tor, want)]);
}

#[test]
fn cover_emits_unchanged_dummy() {
    assert!(reject_maximum().is_ok());
    let want = sealed();
    let mut t = PrivacyTransport::new(PrivacyMode::High, MemSink::default());
    t.send_cover(want.clone()).unwrap();
    t.advance(PRIVATE_EXTRA_MAX_MS + PRIVATE_BATCH_MAX_MS).unwrap();
    assert_eq!(t.sink().sent, vec![(Hop::Tor, want)]);
}

#[test]
fn maximum_is_constant_rate_tor_hop() {
    assert_eq!(hop_for(PrivacyMode::Maximum), Hop::Tor);
    assert!(!calls_allowed(PrivacyMode::Maximum));
    let want = sealed();
    let mut t = PrivacyTransport::new(PrivacyMode::Maximum, MemSink::default());
    t.send(want.clone()).unwrap();
    assert_eq!(t.pending_count(), 0);
    assert_eq!(t.sink().sent, vec![(Hop::Tor, want)]);
}

#[test]
fn recv_does_not_rewrite_bytes() {
    let bytes = vec![vec![1, 2, 3], vec![4]];
    assert_eq!(PrivacyTransport::<MemSink>::recv(bytes.clone()), bytes);
}

#[test]
fn wake_coalesce_one_per_ten_seconds() {
    let mut w = WakeCoalesce::default();
    assert!(w.should_wake(0));
    assert!(!w.should_wake(WAKE_COALESCE_MS - 1));
    assert!(w.should_wake(WAKE_COALESCE_MS));
    assert!(!w.should_wake(WAKE_COALESCE_MS + 1));
}

struct FailSink;

impl EnvelopeSink for FailSink {
    fn emit(&mut self, _hop: Hop, _outer_bytes: Vec<u8>) -> Result<(), CoreError> {
        Err(CoreError::CoverNotShipped)
    }
}

#[test]
fn normal_propagates_sink_error() {
    let mut t = PrivacyTransport::new(PrivacyMode::Normal, FailSink);
    assert!(t.send(sealed()).is_err());
}

#[test]
fn normal_returns_the_sink_error_as_is() {
    let mut t = PrivacyTransport::new(PrivacyMode::Normal, FailSink);
    assert_eq!(t.send(sealed()), Err(CoreError::CoverNotShipped));
    assert_eq!(t.pending_count(), 0);
}

/// Records every offer and refuses the one at `fail_at`.
struct RefusingSink {
    offered: Vec<(Hop, Vec<u8>)>,
    fail_at: usize,
}

impl EnvelopeSink for RefusingSink {
    fn emit(&mut self, hop: Hop, outer_bytes: Vec<u8>) -> Result<(), CoreError> {
        let i = self.offered.len();
        self.offered.push((hop, outer_bytes));
        if i == self.fail_at {
            Err(CoreError::Transport("refused".into()))
        } else {
            Ok(())
        }
    }
}

#[test]
fn flush_stops_at_the_first_refusal() {
    let sink = RefusingSink { offered: Vec::new(), fail_at: 1 };
    let mut t = PrivacyTransport::new(PrivacyMode::High, sink);
    t.send(vec![1]).unwrap();
    t.send(vec![2]).unwrap();
    t.send(vec![3]).unwrap();
    let r = t.advance(PRIVATE_EXTRA_MAX_MS + PRIVATE_BATCH_MAX_MS);
    assert_eq!(r, Err(CoreError::Transport("refused".into())));
    assert_eq!(t.sink().offered, vec![(Hop::Tor, vec![1]), (Hop::Tor, vec![2])]);
    assert_eq!(t.pending_count(), 0);
    assert_eq!(t.now_ms(), PRIVATE_EXTRA_MAX_MS + PRIVATE_BATCH_MAX_MS);
}

#[test]
fn nothing_due_touches_no_sink() {
    let sink = RefusingSink { offered: Vec::new(), fail_at: 0 };
    let mut t = PrivacyTransport::new(PrivacyMode::Private, sink);
    t.send(vec![7]).unwrap();
    assert_eq!(t.advance(PRIVATE_EXTRA_MIN_MS - 1), Ok(0));
    assert!(t.sink().offered.is_empty());
    assert_eq!(t.pending_count(), 1);
    assert_eq!(t.flush_ready(), Ok(0));
}

#[test]
fn cover_in_high_waits_like_a_real_envelope() {
    let mut t = PrivacyTransport::new(PrivacyMode::High, MemSink::default());
    t.send_cover(vec![5, 5]).unwrap();
    assert_eq!(t.advance(PRIVATE_EXTRA_MIN_MS - 1), Ok(0));
    assert_eq!(t.pending_count(), 1);
    assert_eq!(t.advance(PRIVATE_EXTRA_MAX_MS + PRIVATE_BATCH_MAX_MS), Ok(1));
    assert_eq!(t.sink().sent, vec![(Hop::Tor, vec![5, 5])]);
    assert_eq!(t.advance(u64::MAX), Ok(0));
    assert_eq!(t.sink().sent.len(), 1);
}

#[test]
fn normal_refuses_cover() {
    let mut t = PrivacyTransport::new(PrivacyMode::Normal, MemSink::default());
    assert_eq!(t.send_cover(sealed()), Err(CoreError::CoverNotShipped));
    assert!(t.sink().sent.is_empty());
}

#[test]
fn flush_keeps_queue_order() {
    let mut t = PrivacyTransport::new(PrivacyMode::Private, MemSink::default());
    t.send(vec![1]).unwrap();
    t.send(vec![2]).unwrap();
    t.send(vec![3]).unwrap();
    assert_eq!(t.pending_count(), 3);
    assert_eq!(t.advance(u64::MAX).unwrap(), 3);
    assert_eq!(
        t.sink().sent,
        vec![(Hop::Direct, vec![1]), (Hop::Direct, vec![2]), (Hop::Direct, vec![3])]
    );
    assert_eq!(t.now_ms(), u64::MAX);
}

#[test]
fn sink_mut_reaches_the_sink() {
    let mut t = PrivacyTransport::new(PrivacyMode::Normal, MemSink::default());
    t.sink_mut().sent.push((Hop::Tor, vec![9]));
    assert_eq!(t.sink().sent, vec![(Hop::Tor, vec![9])]);
    assert_eq!(t.mode(), PrivacyMode::Normal);
}

#[test]
fn send_delay_stays_in_range() {
    for _ in 0..50 {
        let d = nemo::privacy::private_send_delay_ms().unwrap();
        assert!(d >= PRIVATE_EXTRA_MIN_MS);
        assert!(d <= PRIVATE_EXTRA_MAX_MS + PRIVATE_BATCH_MAX_MS);
    }
}

#[test]
fn wake_coalesce_first_wake_at_any_time() {
    let mut w = WakeCoalesce::new();
    assert!(w.should_wake(123_456));
    assert!(!w.should_wake(123_456));
    assert!(w.should_wake(133_456));
}

#[test]
fn second_flush_at_the_same_time_hands_on_nothing() {
    let mut t = PrivacyTransport::new(PrivacyMode::Private, MemSink::default());
    t.send(vec![1]).unwrap();
    t.send(vec![2]).unwrap();
    let first = t.advance(PRIVATE_EXTRA_MAX_MS + PRIVATE_BATCH_MAX_MS).unwrap();
    let left = t.pending_count();
    assert_eq!(first + left, 2);
    assert_eq!(t.flush_ready(), Ok(0));
    assert_eq!(t.pending_count(), left);
    assert_eq!(t.sink().sent.len(), first);
}

#[test]
fn uniform_from_covers_the_whole_range() {
    assert_eq!(uniform_from(0, 20, 200), 20);
    assert_eq!(uniform_from(180, 20, 200), 200);
    assert_eq!(uniform_from(181, 20, 200), 20);
    assert_eq!(uniform_from(u64::MAX, 0, 1), 1);
    assert_eq!(uniform(5, 5), Some(5));
    assert_eq!(uniform(7, 3), Some(7));
    let v = uniform(10, 12).unwrap();
    assert!((10..=12).contains(&v));
}

#[test]
fn flushing_in_steps_hands_on_each_envelope_once() {
    let mut t = PrivacyTransport::new(PrivacyMode::High, MemSink::default());
    t.send(vec![1]).unwrap();
    t.send(vec![2]).unwrap();
    t.send(vec![3]).unwrap();
    let a = t.advance(1_000).unwrap();
    let b = t.advance(3_000).unwrap();
    let c = t.advance(PRIVATE_EXTRA_MAX_MS + PRIVATE_BATCH_MAX_MS).unwrap();
    assert_eq!(a + b + c, 3);
    assert_eq!(t.pending_count(), 0);
    let mut got: Vec<Vec<u8>> = t.sink().sent.iter().map(|(_, b)| b.clone()).collect();
    got.sort();
    assert_eq!(got, vec![vec![1], vec![2], vec![3]]);
}
