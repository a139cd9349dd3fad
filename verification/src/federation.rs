//! Server to server delivery: the outbound queue's retry schedule, the
//! per-peer frame counters that make a link replay-safe, and the per-peer
//! rate window. Sockets, TLS and HPKE are outside.

use vstd::prelude::*;
use crate::ids::KEY_LEN;
use crate::server::ServerError;

verus! {

/// Envelopes a peer may hand over per second.
pub const PEER_RATE_PER_SEC: u32 = 100;

/// An outbound envelope older than this is dropped.
pub const OUTBOUND_MAX_AGE_SECS: u64 = 1209600;

/// Longest retry delay.
pub const BACKOFF_CAP_SECS: u64 = 300;

/// Where an enqueued envelope went.
#[derive(Clone, Copy, Debug, PartialEq, Eq, Structural)]
pub enum Enqueue {
    /// Appended to a mailbox on this home, with its sequence number.
    Local(u64),
    /// Queued for another home.
    Queued,
}

/// What one pump did.
#[derive(Clone, Copy, Debug, PartialEq, Eq, Structural)]
pub struct PumpStats {
    pub delivered: usize,
    pub failed: usize,
    pub deferred: usize,
    pub expired: usize,
}

impl Default for PumpStats {
    fn default() -> (s: Self)
        ensures
            s == (PumpStats { delivered: 0, failed: 0, deferred: 0, expired: 0 }),
    {
        PumpStats { delivered: 0, failed: 0, deferred: 0, expired: 0 }
    }
}

/// An envelope waiting for another home.
#[derive(Debug)]
pub struct OutboundRow {
    pub dest: [u8; KEY_LEN],
    pub outer: Vec<u8>,
    pub enqueued_at: u64,
    pub next_attempt: u64,
    pub backoff_secs: u64,
}

/// What the pump does with a row for the peer it is pumping to.
#[derive(Clone, Copy, Debug, PartialEq, Eq, Structural)]
pub enum Due {
    /// For another peer: left alone.
    OtherPeer,
    /// Older than [`OUTBOUND_MAX_AGE_SECS`]: dropped.
    Expired,
    /// Its next attempt is later: left for now.
    Deferred,
    /// Sent now.
    Send,
}

pub open spec fn due_of(enqueued_at: u64, next_attempt: u64, for_peer: bool, now: u64) -> Due {
    if !for_peer {
        Due::OtherPeer
    } else if now >= enqueued_at && now - enqueued_at > OUTBOUND_MAX_AGE_SECS {
        Due::Expired
    } else if next_attempt > now {
        Due::Deferred
    } else {
        Due::Send
    }
}

pub fn row_due(row: &OutboundRow, dest: &[u8; KEY_LEN], now: u64) -> (d: Due)
    ensures
        d == due_of(row.enqueued_at, row.next_attempt, row.dest@ == dest@, now),
{
    if !same_id(&row.dest, dest) {
        return Due::OtherPeer;
    }
    if now >= row.enqueued_at && now - row.enqueued_at > OUTBOUND_MAX_AGE_SECS {
        return Due::Expired;
    }
    if row.next_attempt > now {
        return Due::Deferred;
    }
    Due::Send
}

fn same_id(a: &[u8; KEY_LEN], b: &[u8; KEY_LEN]) -> (r: bool)
    ensures
        r == (a@ == b@),
{
    let mut i: usize = 0;
    while i < KEY_LEN
        invariant
            a@.len() == KEY_LEN,
            b@.len() == KEY_LEN,
            i <= KEY_LEN,
            forall|k: int| 0 <= k < i ==> a@[k] == b@[k],
        decreases KEY_LEN - i,
    {
        if a[i] != b[i] {
            return false;
        }
        i = i + 1;
    }
    assert(a@ =~= b@);
    true
}

/// How sending a row went.
#[derive(Clone, Copy, Debug, PartialEq, Eq, Structural)]
pub enum Sent {
    Delivered,
    /// The peer refused the envelope or the link: the row is dropped.
    Refused,
    /// The frame counters disagreed: the link is reset and the row retried.
    CounterGap,
    /// Any other failure: retried later.
    Failed,
}

/// The doubled retry delay, at most [`BACKOFF_CAP_SECS`].
pub open spec fn next_backoff(back: u64) -> u64 {
    let doubled = if back * 2 > u64::MAX {
        u64::MAX as int
    } else {
        back * 2
    };
    if doubled <= BACKOFF_CAP_SECS {
        doubled as u64
    } else {
        BACKOFF_CAP_SECS
    }
}

/// Records a failed attempt: the delay doubles up to the cap and the next
/// attempt waits that long.
pub fn back_off(row: &mut OutboundRow, now: u64)
    ensures
        final(row).backoff_secs == next_backoff(old(row).backoff_secs),
        final(row).next_attempt == if now + next_backoff(old(row).backoff_secs) > u64::MAX {
            u64::MAX
        } else {
            (now + next_backoff(old(row).backoff_secs)) as u64
        },
        final(row).dest == old(row).dest,
        final(row).outer == old(row).outer,
        final(row).enqueued_at == old(row).enqueued_at,
{
    row.backoff_secs = if row.backoff_secs <= BACKOFF_CAP_SECS / 2 {
        row.backoff_secs * 2
    } else {
        BACKOFF_CAP_SECS
    };
    row.next_attempt = now.saturating_add(row.backoff_secs);
}

/// Whether a row stays queued after an attempt, and the counters updated.
pub open spec fn after_send(s: Sent, stats: PumpStats) -> (bool, PumpStats) {
    match s {
        Sent::Delivered => (false, PumpStats { delivered: (stats.delivered + 1) as usize, ..stats }),
        Sent::Refused => (false, PumpStats { failed: (stats.failed + 1) as usize, ..stats }),
        _ => (true, PumpStats { failed: (stats.failed + 1) as usize, ..stats }),
    }
}

/// Counts an attempt; returns whether the row stays queued (and then backs
/// it off).
pub fn settle(row: &mut OutboundRow, s: Sent, now: u64, stats: &mut PumpStats) -> (keep: bool)
    requires
        old(stats).delivered < usize::MAX,
        old(stats).failed < usize::MAX,
    ensures
        keep == after_send(s, *old(stats)).0,
        *final(stats) == after_send(s, *old(stats)).1,
        keep ==> final(row).backoff_secs == next_backoff(old(row).backoff_secs),
        keep ==> final(row).dest == old(row).dest && final(row).outer == old(row).outer && final(row).enqueued_at
            == old(row).enqueued_at,
        !keep ==> *final(row) == *old(row),
{
    match s {
        Sent::Delivered => {
            stats.delivered = stats.delivered + 1;
            false
        },
        Sent::Refused => {
            stats.failed = stats.failed + 1;
            false
        },
        _ => {
            back_off(row, now);
            stats.failed = stats.failed + 1;
            true
        },
    }
}

/// Frame counters of one peer link.
#[derive(Clone, Copy, Debug, PartialEq, Eq, Structural)]
pub struct LinkCounters {
    /// Last counter received from the peer.
    pub last_rx: u64,
    /// Next counter to send.
    pub next_tx: u64,
}

/// What an incoming frame counter means.
#[derive(Clone, Copy, Debug, PartialEq, Eq, Structural)]
pub enum Incoming {
    /// At or below the last one: a replay, answered without effect.
    Replay,
    /// Exactly the next one.
    Fresh,
}

/// Accepts an incoming frame counter: a replay changes nothing, the next
/// counter advances the link, anything else is a gap.
pub fn accept_counter(link: &mut LinkCounters, incoming: u64) -> (r: Result<Incoming, ServerError>)
    ensures
        incoming <= old(link).last_rx ==> (r == Ok::<Incoming, ServerError>(Incoming::Replay)
            && *final(link) == *old(link)),
        incoming == old(link).last_rx + 1 ==> (r == Ok::<Incoming, ServerError>(Incoming::Fresh)
            && final(link).last_rx == incoming && final(link).next_tx == old(link).next_tx),
        incoming > old(link).last_rx + 1 ==> (r == Err::<Incoming, ServerError>(
            ServerError::CounterGap,
        ) && *final(link) == *old(link)),
        final(link).last_rx >= old(link).last_rx,
{
    if incoming <= link.last_rx {
        return Ok(Incoming::Replay);
    }
    if incoming != link.last_rx + 1 {
        return Err(ServerError::CounterGap);
    }
    link.last_rx = incoming;
    Ok(Incoming::Fresh)
}

/// Takes the next outgoing counter.
pub fn take_counter(link: &mut LinkCounters) -> (c: u64)
    requires
        old(link).next_tx < u64::MAX,
    ensures
        c == old(link).next_tx,
        final(link).next_tx == old(link).next_tx + 1,
        final(link).last_rx == old(link).last_rx,
{
    let c = link.next_tx;
    link.next_tx = link.next_tx + 1;
    c
}

/// A reset link starts over: nothing received, counter 1 next.
pub fn reset_link(link: &mut LinkCounters)
    ensures
        *final(link) == (LinkCounters { last_rx: 0, next_tx: 1 }),
{
    link.last_rx = 0;
    link.next_tx = 1;
}

/// The per-second count of envelopes accepted from a peer.
#[derive(Clone, Copy, Debug, PartialEq, Eq, Structural)]
pub struct PeerWindow {
    pub window_sec: u64,
    pub window_ok: u32,
}

/// Whether another envelope from the peer fits this second; a new second
/// starts a new count.
pub fn window_allows(w: &mut PeerWindow, now: u64) -> (ok: bool)
    ensures
        old(w).window_sec != now ==> final(w).window_sec == now && final(w).window_ok == 0,
        old(w).window_sec == now ==> *final(w) == *old(w),
        ok == (final(w).window_ok < PEER_RATE_PER_SEC),
{
    if w.window_sec != now {
        w.window_sec = now;
        w.window_ok = 0;
    }
    w.window_ok < PEER_RATE_PER_SEC
}

/// Counts an accepted envelope.
pub fn window_count(w: &mut PeerWindow)
    requires
        old(w).window_ok < PEER_RATE_PER_SEC,
    ensures
        final(w).window_ok == old(w).window_ok + 1,
        final(w).window_sec == old(w).window_sec,
{
    w.window_ok = w.window_ok + 1;
}

} // verus!
