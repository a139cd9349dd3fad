//! Privacy transport. Envelope bytes are never rewritten; only their timing
//! and the client-to-home hop change with the mode.

use vstd::prelude::*;

use crate::error::CoreError;

verus! {

pub const PRIVATE_EXTRA_MIN_MS: u64 = 20;
pub const PRIVATE_EXTRA_MAX_MS: u64 = 200;
pub const PRIVATE_BATCH_MAX_MS: u64 = 5_000;
pub const WAKE_COALESCE_MS: u64 = 10_000;

#[derive(Clone, Copy, Debug, PartialEq, Eq, Structural)]
pub enum PrivacyMode {
    Normal,
    Private,
    /// Private timing plus a Tor hop from client to home.
    High,
    /// Constant-rate sending over the Tor hop; calls are not offered.
    Maximum,
}

#[derive(Clone, Copy, Debug, PartialEq, Eq, Structural)]
pub enum Hop {
    Direct,
    /// Client to home only. Server to server stays mTLS.
    Tor,
}

pub open spec fn spec_hop_for(mode: PrivacyMode) -> Hop {
    match mode {
        PrivacyMode::Normal | PrivacyMode::Private => Hop::Direct,
        PrivacyMode::High | PrivacyMode::Maximum => Hop::Tor,
    }
}

/// Modes that hold envelopes for a random delay before they leave.
pub open spec fn spec_delays(mode: PrivacyMode) -> bool {
    mode == PrivacyMode::Private || mode == PrivacyMode::High
}

/// Modes in which cover envelopes may be sent.
pub open spec fn spec_cover_allowed(mode: PrivacyMode) -> bool {
    mode == PrivacyMode::High || mode == PrivacyMode::Maximum
}

/// Where an envelope leaves this device. The sink keeps a log of every
/// offer made to it, with its answer, so that callers can state what was
/// handed on and what came back.
pub trait EnvelopeSink {
    /// Every call of `emit` on this sink, oldest first: the hop, the bytes
    /// offered, and what the sink answered. The empty default is only a
    /// placeholder: `emit` grows this log by one entry per call, so a sink
    /// checked against that contract defines it.
    open spec fn offers(&self) -> Seq<(Hop, Seq<u8>, Result<(), CoreError>)> {
        Seq::empty()
    }

    fn emit(&mut self, hop: Hop, outer_bytes: Vec<u8>) -> (r: Result<(), CoreError>)
        ensures
            final(self).offers() == old(self).offers().push((hop, outer_bytes@, r)),
    ;
}

/// Offers that the sink accepted, one for each of `d`, in order.
pub open spec fn ok_offers(d: Seq<(Hop, Seq<u8>)>) -> Seq<(Hop, Seq<u8>, Result<(), CoreError>)> {
    d.map_values(|x: (Hop, Seq<u8>)| (x.0, x.1, Ok::<(), CoreError>(())))
}

/// A flush that failed with `e`: the sink accepted the first `j` due
/// envelopes, refused the next one with `e`, and was offered nothing after.
pub open spec fn failed_at(
    before: Seq<(Hop, Seq<u8>, Result<(), CoreError>)>,
    after: Seq<(Hop, Seq<u8>, Result<(), CoreError>)>,
    d: Seq<(Hop, Seq<u8>)>,
    e: CoreError,
) -> bool {
    exists|j: int|
        #![trigger d.take(j)]
        0 <= j < d.len() && after == before + ok_offers(d.take(j)).push(
            (d[j].0, d[j].1, Err::<(), CoreError>(e)),
        )
}

/// Collects emitted envelopes in memory.
pub struct MemSink {
    pub sent: Vec<(Hop, Vec<u8>)>,
}

pub open spec fn sent_view(sent: Seq<(Hop, Vec<u8>)>) -> Seq<(Hop, Seq<u8>)> {
    sent.map_values(|p: (Hop, Vec<u8>)| (p.0, p.1@))
}

impl MemSink {
    pub fn new() -> (s: Self)
        ensures
            s.sent@.len() == 0,
    {
        MemSink { sent: Vec::new() }
    }
}

impl Default for MemSink {
    fn default() -> (s: Self)
        ensures
            s.sent@.len() == 0,
    {
        MemSink::new()
    }
}

impl EnvelopeSink for MemSink {
    /// Everything this sink was offered; it accepts every offer.
    open spec fn offers(&self) -> Seq<(Hop, Seq<u8>, Result<(), CoreError>)> {
        ok_offers(sent_view(self.sent@))
    }

    fn emit(&mut self, hop: Hop, outer_bytes: Vec<u8>) -> (r: Result<(), CoreError>)
        ensures
            r is Ok,
            final(self).sent@ == old(self).sent@.push((hop, outer_bytes)),
    {
        self.sent.push((hop, outer_bytes));
        assert(sent_view(self.sent@) =~= sent_view(old(self).sent@).push((hop, outer_bytes@)));
        assert(ok_offers(sent_view(self.sent@)) =~= ok_offers(sent_view(old(self).sent@)).push(
            (hop, outer_bytes@, Ok::<(), CoreError>(())),
        ));
        Ok(())
    }
}

struct Pending {
    bytes: Vec<u8>,
    ready_at_ms: u64,
}

spec fn pending_view(p: Seq<Pending>) -> Seq<(Seq<u8>, u64)> {
    p.map_values(|x: Pending| (x.bytes@, x.ready_at_ms))
}

/// What a flush at `now` hands to the sink: the due envelopes, in queue order.
pub open spec fn due(pending: Seq<(Seq<u8>, u64)>, now: u64, hop: Hop) -> Seq<(Hop, Seq<u8>)>
    decreases pending.len(),
{
    if pending.len() == 0 {
        seq![]
    } else {
        let prev = due(pending.drop_last(), now, hop);
        if pending.last().1 <= now {
            prev.push((hop, pending.last().0))
        } else {
            prev
        }
    }
}

/// What a flush at `now` keeps queued: the envelopes not yet due, in queue order.
pub open spec fn not_due(pending: Seq<(Seq<u8>, u64)>, now: u64) -> Seq<(Seq<u8>, u64)>
    decreases pending.len(),
{
    if pending.len() == 0 {
        seq![]
    } else {
        let prev = not_due(pending.drop_last(), now);
        if pending.last().1 <= now {
            prev
        } else {
            prev.push(pending.last())
        }
    }
}

/// Holds sealed envelopes for the mode's delay, then hands them to the sink.
pub struct PrivacyTransport<S: EnvelopeSink> {
    mode: PrivacyMode,
    now_ms: u64,
    pending: Vec<Pending>,
    sink: S,
}

impl<S: EnvelopeSink> PrivacyTransport<S> {
    pub closed spec fn spec_mode(&self) -> PrivacyMode {
        self.mode
    }

    pub closed spec fn spec_now(&self) -> u64 {
        self.now_ms
    }

    /// Queued envelopes with the time at which each becomes due, oldest first.
    pub closed spec fn spec_pending(&self) -> Seq<(Seq<u8>, u64)> {
        pending_view(self.pending@)
    }

    pub closed spec fn spec_sink(&self) -> S {
        self.sink
    }

    pub fn new(mode: PrivacyMode, sink: S) -> (t: Self)
        ensures
            t.spec_mode() == mode,
            t.spec_now() == 0,
            t.spec_pending().len() == 0,
            t.spec_sink() == sink,
    {
        PrivacyTransport { mode, now_ms: 0, pending: Vec::new(), sink }
    }

    pub fn mode(&self) -> (m: PrivacyMode)
        ensures
            m == self.spec_mode(),
    {
        self.mode
    }

    pub fn hop(&self) -> (h: Hop)
        ensures
            h == spec_hop_for(self.spec_mode()),
    {
        hop_for(self.mode)
    }

    pub fn now_ms(&self) -> (n: u64)
        ensures
            n == self.spec_now(),
    {
        self.now_ms
    }

    /// Queue an already-sealed envelope. The bytes are not rewritten.
    ///
    /// Normal and Maximum hand the envelope to the sink at once and return
    /// what the sink answers; Private and High hold it for 20..=5200 ms, and
    /// refuse it, keeping everything as it was, when the operating system
    /// gives no random bytes for the delay.
    pub fn send(&mut self, outer_bytes: Vec<u8>) -> (r: Result<(), CoreError>)
        ensures
            final(self).spec_mode() == old(self).spec_mode(),
            final(self).spec_now() == old(self).spec_now(),
            spec_delays(old(self).spec_mode()) && r is Err ==> r == Err::<(), CoreError>(
                CoreError::Randomness,
            ) && *final(self) == *old(self),
            spec_delays(old(self).spec_mode()) && r is Ok ==> {
                &&& final(self).spec_sink() == old(self).spec_sink()
                &&& final(self).spec_pending().len() == old(self).spec_pending().len() + 1
                &&& final(self).spec_pending().drop_last() == old(self).spec_pending()
                &&& final(self).spec_pending().last().0 == outer_bytes@
                &&& min_add(old(self).spec_now(), PRIVATE_EXTRA_MIN_MS as int)
                    <= final(self).spec_pending().last().1
                    <= min_add(
                    old(self).spec_now(),
                    (PRIVATE_EXTRA_MAX_MS + PRIVATE_BATCH_MAX_MS) as int,
                )
            },
            !spec_delays(old(self).spec_mode()) ==> {
                &&& final(self).spec_pending() == old(self).spec_pending()
                &&& final(self).spec_sink().offers() == old(self).spec_sink().offers().push(
                    (spec_hop_for(old(self).spec_mode()), outer_bytes@, r),
                )
            },
    {
        if self.mode == PrivacyMode::Normal || self.mode == PrivacyMode::Maximum {
            let hop = hop_for(self.mode);
            self.sink.emit(hop, outer_bytes)
        } else {
            let delay = match private_send_delay_ms() {
                Some(d) => d,
                None => {
                    return Err(CoreError::Randomness);
                },
            };
            let ready_at_ms = self.now_ms.saturating_add(delay);
            self.pending.push(Pending { bytes: outer_bytes, ready_at_ms });
            assert(pending_view(self.pending@).drop_last() =~= pending_view(old(self).pending@));
            Ok(())
        }
    }

    /// Queue a cover envelope. Cover traffic exists only in High and Maximum;
    /// there it takes the path of a real envelope.
    pub fn send_cover(&mut self, outer_bytes: Vec<u8>) -> (r: Result<(), CoreError>)
        ensures
            !spec_cover_allowed(old(self).spec_mode()) ==> r == Err::<(), CoreError>(
                CoreError::CoverNotShipped,
            ) && *final(self) == *old(self),
            final(self).spec_mode() == old(self).spec_mode(),
            final(self).spec_now() == old(self).spec_now(),
            old(self).spec_mode() == PrivacyMode::High && r is Err ==> r == Err::<(), CoreError>(
                CoreError::Randomness,
            ) && *final(self) == *old(self),
            old(self).spec_mode() == PrivacyMode::High && r is Ok ==> {
                &&& final(self).spec_sink() == old(self).spec_sink()
                &&& final(self).spec_pending().drop_last() == old(self).spec_pending()
                &&& final(self).spec_pending().len() == old(self).spec_pending().len() + 1
                &&& final(self).spec_pending().last().0 == outer_bytes@
                &&& min_add(old(self).spec_now(), PRIVATE_EXTRA_MIN_MS as int)
                    <= final(self).spec_pending().last().1
                    <= min_add(
                    old(self).spec_now(),
                    (PRIVATE_EXTRA_MAX_MS + PRIVATE_BATCH_MAX_MS) as int,
                )
            },
            old(self).spec_mode() == PrivacyMode::Maximum ==> {
                &&& final(self).spec_pending() == old(self).spec_pending()
                &&& final(self).spec_sink().offers() == old(self).spec_sink().offers().push(
                    (Hop::Tor, outer_bytes@, r),
                )
            },
    {
        if self.mode == PrivacyMode::High || self.mode == PrivacyMode::Maximum {
            self.send(outer_bytes)
        } else {
            Err(CoreError::CoverNotShipped)
        }
    }

    /// Fetched mailbox bytes pass through unchanged.
    pub fn recv(fetched_outer_bytes: Vec<Vec<u8>>) -> (r: Vec<Vec<u8>>)
        ensures
            r@ == fetched_outer_bytes@,
    {
        fetched_outer_bytes
    }

    /// Move the clock to `now_ms` and flush what is due.
    pub fn advance(&mut self, now_ms: u64) -> (r: Result<usize, CoreError>)
        ensures
            final(self).spec_mode() == old(self).spec_mode(),
            final(self).spec_now() == now_ms,
            due(old(self).spec_pending(), now_ms, spec_hop_for(old(self).spec_mode())).len() == 0
                ==> {
                &&& r == Ok::<usize, CoreError>(0)
                &&& final(self).spec_pending() == old(self).spec_pending()
                &&& final(self).spec_sink() == old(self).spec_sink()
            },
            r matches Ok(n) ==> flushed(*old(self), *final(self), now_ms, n),
            r matches Err(e) ==> {
                &&& final(self).spec_pending().len() == 0
                &&& final(self).spec_sink().offers().len() > old(self).spec_sink().offers().len()
                &&& final(self).spec_sink().offers().last().2 == Err::<(), CoreError>(e)
                &&& failed_at(
                    old(self).spec_sink().offers(),
                    final(self).spec_sink().offers(),
                    due(old(self).spec_pending(), now_ms, spec_hop_for(old(self).spec_mode())),
                    e,
                )
            },
    {
        self.now_ms = now_ms;
        self.flush_ready()
    }

    /// Hand every due envelope to the sink, in queue order; keep the rest.
    /// A sink error stops the flush, is returned as it came, and drops the
    /// whole queue.
    pub fn flush_ready(&mut self) -> (r: Result<usize, CoreError>)
        ensures
            final(self).spec_mode() == old(self).spec_mode(),
            final(self).spec_now() == old(self).spec_now(),
            due(
                old(self).spec_pending(),
                old(self).spec_now(),
                spec_hop_for(old(self).spec_mode()),
            ).len() == 0 ==> {
                &&& r == Ok::<usize, CoreError>(0)
                &&& final(self).spec_pending() == old(self).spec_pending()
                &&& final(self).spec_sink() == old(self).spec_sink()
            },
            r matches Ok(n) ==> flushed(*old(self), *final(self), old(self).spec_now(), n),
            r matches Err(e) ==> {
                &&& final(self).spec_pending().len() == 0
                &&& final(self).spec_sink().offers().len() > old(self).spec_sink().offers().len()
                &&& final(self).spec_sink().offers().last().2 == Err::<(), CoreError>(e)
                &&& failed_at(
                    old(self).spec_sink().offers(),
                    final(self).spec_sink().offers(),
                    due(
                        old(self).spec_pending(),
                        old(self).spec_now(),
                        spec_hop_for(old(self).spec_mode()),
                    ),
                    e,
                )
            },
    {
        let now = self.now_ms;
        let hop = hop_for(self.mode);
        let mut queue: Vec<Pending> = Vec::new();
        std::mem::swap(&mut queue, &mut self.pending);
        let total = queue.len();
        let ghost orig = pending_view(queue@);
        assert(orig.len() == total);
        let ghost offers0 = self.sink.offers();
        let ghost sink0 = self.sink;
        let mut rest: Vec<Pending> = Vec::new();
        let mut n: usize = 0;
        let mut k: usize = 0;
        while queue.len() > 0
            invariant
                self.mode == old(self).mode,
                hop == spec_hop_for(self.mode),
                self.now_ms == now,
                now == old(self).now_ms,
                self.pending@.len() == 0,
                k <= orig.len(),
                orig.len() == total,
                pending_view(queue@) == orig.skip(k as int),
                self.sink.offers() == offers0 + ok_offers(due(orig.take(k as int), now, hop)),
                n == 0 ==> self.sink == sink0,
                offers0 == sink0.offers(),
                sink0 == old(self).sink,
                orig == pending_view(old(self).pending@),
                pending_view(rest@) == not_due(orig.take(k as int), now),
                n == due(orig.take(k as int), now, hop).len(),
                n <= k,
            decreases queue.len(),
        {
            proof {
                assert(pending_view(queue@).len() == queue@.len());
                assert(k < orig.len());
            }
            let ghost q0 = queue@;
            let p = queue.remove(0);
            proof {
                assert(pending_view(q0)[0] == (p.bytes@, p.ready_at_ms));
                assert(orig.skip(k as int)[0] == orig[k as int]);
                assert(pending_view(queue@) =~= pending_view(q0).skip(1));
                assert(orig.take(k + 1).drop_last() =~= orig.take(k as int));
                assert(orig.take(k + 1).last() == orig[k as int]);
                assert(orig[k as int] == (p.bytes@, p.ready_at_ms));
                assert(pending_view(queue@) =~= orig.skip(k + 1));
            }
            if p.ready_at_ms <= now {
                let ghost bytes = p.bytes@;
                let res = self.sink.emit(hop, p.bytes);
                proof {
                    let dk = due(orig.take(k as int), now, hop);
                    assert(due(orig.take(k + 1), now, hop) == dk.push((hop, bytes)));
                    assert(ok_offers(dk.push((hop, bytes))) =~= ok_offers(dk).push(
                        (hop, bytes, Ok::<(), CoreError>(())),
                    ));
                    lemma_due_prefix(orig, k + 1, now, hop);
                }
                match res {
                    Ok(u) => {
                        // The unit value is the only one: the sink said `Ok(())`.
                        proof {
                            assert(u == ());
                        }
                    },
                    Err(e) => {
                        proof {
                            let d = due(orig, now, hop);
                            let j = due(orig.take(k as int), now, hop).len() as int;
                            assert(d.take(j + 1).take(j) =~= d.take(j));
                            assert(d.take(j) == due(orig.take(k as int), now, hop));
                            assert(d[j] == d.take(j + 1)[j]);
                            assert(self.sink.offers() == offers0 + ok_offers(d.take(j)).push(
                                (d[j].0, d[j].1, Err::<(), CoreError>(e)),
                            ));
                        }
                        return Err(e);
                    },
                }
                proof {
                    let dk = due(orig.take(k as int), now, hop);
                    let x = (hop, bytes, Ok::<(), CoreError>(()));
                    assert((offers0 + ok_offers(dk)).push(x) =~= offers0 + ok_offers(dk).push(x));
                    assert(ok_offers(due(orig.take(k + 1), now, hop)) == ok_offers(dk).push(x));
                }
                n = n + 1;
            } else {
                rest.push(p);
                proof {
                    assert(pending_view(rest@) =~= not_due(orig.take(k as int), now).push(
                        orig[k as int],
                    ));
                }
            }
            k = k + 1;
        }
        proof {
            assert(orig.take(k as int) =~= orig);
            if due(orig, now, hop).len() == 0 {
                lemma_no_due(orig, now, hop);
            }
        }
        self.pending = rest;
        Ok(n)
    }

    pub fn pending_count(&self) -> (n: usize)
        ensures
            n == self.spec_pending().len(),
    {
        self.pending.len()
    }

    pub fn sink(&self) -> (s: &S)
        ensures
            *s == self.spec_sink(),
    {
        &self.sink
    }

    /// The sink, to change it in place; nothing else of the transport
    /// changes.
    pub fn sink_mut(&mut self) -> (s: &mut S)
        ensures
            *s == old(self).spec_sink(),
            final(self).spec_sink() == *final(s),
            final(self).spec_mode() == old(self).spec_mode(),
            final(self).spec_now() == old(self).spec_now(),
            final(self).spec_pending() == old(self).spec_pending(),
    {
        &mut self.sink
    }

    pub fn into_sink(self) -> (s: S)
        ensures
            s == self.spec_sink(),
    {
        self.sink
    }
}

/// The state after a successful flush at `now` that handed `n` envelopes on.
pub open spec fn flushed<S: EnvelopeSink>(
    before: PrivacyTransport<S>,
    after: PrivacyTransport<S>,
    now: u64,
    n: usize,
) -> bool {
    let hop = spec_hop_for(before.spec_mode());
    &&& after.spec_sink().offers() == before.spec_sink().offers() + ok_offers(
        due(before.spec_pending(), now, hop),
    )
    &&& after.spec_pending() == not_due(before.spec_pending(), now)
    &&& n == due(before.spec_pending(), now, hop).len()
}

/// A flush splits the queue without losing or repeating an envelope, and
/// leaves nothing due: a second flush at the same time hands nothing on and
/// keeps the queue as it is.
pub proof fn law_flush_settles(p: Seq<(Seq<u8>, u64)>, now: u64, hop: Hop)
    ensures
        due(p, now, hop).len() + not_due(p, now).len() == p.len(),
        due(not_due(p, now), now, hop).len() == 0,
        not_due(not_due(p, now), now) == not_due(p, now),
    decreases p.len(),
{
    if p.len() > 0 {
        let q = p.drop_last();
        law_flush_settles(q, now, hop);
        let r = not_due(q, now);
        if p.last().1 > now {
            assert(r.push(p.last()).drop_last() =~= r);
        }
    }
}

/// Flushing at `t1` and then at a later `t2` keeps the same envelopes
/// queued as one flush at `t2`, and hands on as many: an envelope leaves by
/// the first flush at or after its ready time, and only once.
pub proof fn law_flush_in_steps(p: Seq<(Seq<u8>, u64)>, t1: u64, t2: u64, hop: Hop)
    requires
        t1 <= t2,
    ensures
        not_due(not_due(p, t1), t2) == not_due(p, t2),
        due(p, t1, hop).len() + due(not_due(p, t1), t2, hop).len() == due(p, t2, hop).len(),
    decreases p.len(),
{
    if p.len() > 0 {
        law_flush_in_steps(p.drop_last(), t1, t2, hop);
        if t1 < p.last().1 {
            assert(not_due(p, t1).drop_last() =~= not_due(p.drop_last(), t1));
        }
    }
    law_flush_settles(p, t1, hop);
    law_flush_settles(p, t2, hop);
    law_flush_settles(not_due(p, t1), t2, hop);
}

/// Nothing due means nothing leaves the queue.
proof fn lemma_no_due(p: Seq<(Seq<u8>, u64)>, now: u64, hop: Hop)
    requires
        due(p, now, hop).len() == 0,
    ensures
        not_due(p, now) == p,
    decreases p.len(),
{
    if p.len() > 0 {
        lemma_no_due(p.drop_last(), now, hop);
        assert(p.drop_last().push(p.last()) =~= p);
    }
}

/// What a prefix of the queue makes due is a prefix of what the whole
/// queue makes due.
proof fn lemma_due_prefix(p: Seq<(Seq<u8>, u64)>, i: int, now: u64, hop: Hop)
    requires
        0 <= i <= p.len(),
    ensures
        due(p.take(i), now, hop).len() <= due(p, now, hop).len(),
        due(p, now, hop).take(due(p.take(i), now, hop).len() as int) == due(p.take(i), now, hop),
    decreases p.len(),
{
    if i == p.len() {
        assert(p.take(i) =~= p);
        assert(due(p, now, hop).take(due(p, now, hop).len() as int) =~= due(p, now, hop));
    } else {
        let q = p.drop_last();
        assert(p.take(i) =~= q.take(i));
        lemma_due_prefix(q, i, now, hop);
        let m = due(q.take(i), now, hop).len() as int;
        assert(due(p, now, hop).take(m) =~= due(q, now, hop).take(m));
    }
}

pub open spec fn min_add(a: u64, b: int) -> int {
    if a + b > u64::MAX {
        u64::MAX as int
    } else {
        a + b
    }
}

pub fn hop_for(mode: PrivacyMode) -> (h: Hop)
    ensures
        h == spec_hop_for(mode),
{
    match mode {
        PrivacyMode::Normal | PrivacyMode::Private => Hop::Direct,
        PrivacyMode::High | PrivacyMode::Maximum => Hop::Tor,
    }
}

/// Calls are not offered in Maximum.
pub fn calls_allowed(mode: PrivacyMode) -> (b: bool)
    ensures
        b == (mode != PrivacyMode::Maximum),
{
    mode != PrivacyMode::Maximum
}

/// Maximum mode ships: selecting it is not an error.
pub fn reject_maximum() -> (r: Result<(), CoreError>)
    ensures
        r is Ok,
{
    Ok(())
}

/// Client-to-home delay for Private and High on the live send path, or
/// `None` when the operating system gives no random bytes.
pub fn private_send_delay_ms() -> (d: Option<u64>)
    ensures
        d matches Some(x) ==> PRIVATE_EXTRA_MIN_MS <= x <= PRIVATE_EXTRA_MAX_MS + PRIVATE_BATCH_MAX_MS,
{
    let extra = extra_delay_ms()?;
    let jitter = batch_jitter_ms()?;
    Some(extra + jitter)
}

fn extra_delay_ms() -> (d: Option<u64>)
    ensures
        d matches Some(x) ==> PRIVATE_EXTRA_MIN_MS <= x <= PRIVATE_EXTRA_MAX_MS,
{
    uniform(PRIVATE_EXTRA_MIN_MS, PRIVATE_EXTRA_MAX_MS)
}

fn batch_jitter_ms() -> (d: Option<u64>)
    ensures
        d matches Some(x) ==> x <= PRIVATE_BATCH_MAX_MS,
{
    uniform(0, PRIVATE_BATCH_MAX_MS)
}

/// The value in `min..=max` that the drawn number `raw` selects: `min`
/// plus `raw` modulo the size of the range.
pub open spec fn drawn(raw: u64, min: u64, max: u64) -> int {
    min + (raw as int) % (max - min + 1)
}

/// The value in `min..=max` that the drawn number `raw` selects.
pub fn uniform_from(raw: u64, min: u64, max: u64) -> (v: u64)
    requires
        min < max,
        max - min < u64::MAX,
    ensures
        v == drawn(raw, min, max),
        min <= v <= max,
{
    let span = max - min + 1;
    min + raw % span
}

/// A value drawn from `min..=max` (`min` when the range is empty), or
/// `None` when the operating system gives no random bytes for a non-empty
/// range.
pub fn uniform(min: u64, max: u64) -> (v: Option<u64>)
    requires
        max - min < u64::MAX,
    ensures
        max <= min ==> v == Some(min),
        min < max ==> (v matches Some(x) ==> exists|raw: u64| x == #[trigger] drawn(raw, min, max)),
        min < max ==> (v matches Some(x) ==> min <= x <= max),
{
    if max <= min {
        return Some(min);
    }
    let raw = crate::rng::random_u64()?;
    Some(uniform_from(raw, min, max))
}

/// At most one push wake per 10 s per device.
pub struct WakeCoalesce {
    last_wake_ms: Option<u64>,
}

impl WakeCoalesce {
    pub closed spec fn spec_last_wake(&self) -> Option<u64> {
        self.last_wake_ms
    }

    pub fn new() -> (w: Self)
        ensures
            w.spec_last_wake() is None,
    {
        WakeCoalesce { last_wake_ms: None }
    }

    /// True, and remembered, unless the last wake was less than 10 s ago.
    pub fn should_wake(&mut self, now_ms: u64) -> (b: bool)
        ensures
            b == wake_due(old(self).spec_last_wake(), now_ms),
            b ==> final(self).spec_last_wake() == Some(now_ms),
            !b ==> final(self).spec_last_wake() == old(self).spec_last_wake(),
    {
        match self.last_wake_ms {
            Some(t) if now_ms.saturating_sub(t) < WAKE_COALESCE_MS => false,
            _ => {
                self.last_wake_ms = Some(now_ms);
                true
            },
        }
    }
}

impl Default for WakeCoalesce {
    fn default() -> (w: Self)
        ensures
            w.spec_last_wake() is None,
    {
        WakeCoalesce::new()
    }
}

pub open spec fn wake_due(last: Option<u64>, now: u64) -> bool {
    match last {
        None => true,
        Some(t) => now - t >= WAKE_COALESCE_MS,
    }
}

} // verus!
