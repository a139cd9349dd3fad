//! The home server's mailbox log: one append-only log per registered
//! identity, numbered from 1 without reuse, deduplicated by idempotency
//! token, bounded in age and size, read by cursor and acknowledged up to a
//! sequence number. Owner authentication and HPKE opening happen before
//! these operations are called.

use vstd::prelude::*;
use crate::keymap::{KeyMap, ct_eq_key};
use crate::ids::KEY_LEN;
use crate::mailbox::{TtlBucket, ttl_secs_of};

verus! {

/// Most rows one fetch returns.
pub const FETCH_LIMIT_MAX: u64 = 256;

/// Size of the window of remembered HPKE encapsulations.
pub const HPKE_ENC_WINDOW: usize = 1024;

/// An old contact capability stays valid this long after rotation.
pub const CONTACT_GRACE_SECS: u64 = 259200;

/// Appends per contact capability per minute.
pub const RATE_PER_MIN: usize = 30;

/// Default mailbox size bound.
pub const MAILBOX_MAX_BYTES: u64 = 524288000;

/// Default mailbox age bound.
pub const MAILBOX_MAX_AGE_SECS: u64 = 1209600;

/// Errors of the home server.
#[derive(Debug, Clone, PartialEq, Eq)]
pub enum ServerError {
    /// A wire object is malformed.
    Wire(String),
    /// Unknown, expired, burned, or empty-prekey: all the same shape.
    Denied,
    OwnerAuth,
    AlreadyRegistered,
    FetchLimit,
    NotPinned,
    PeerRefused,
    CounterGap,
    HelloMismatch,
    OutboundExpired,
    /// The operating system could not supply random bytes.
    Randomness,
}

/// Mailbox bounds.
#[derive(Clone, Copy, Debug)]
pub struct Limits {
    pub mailbox_max_bytes: u64,
    pub mailbox_max_age_secs: u64,
}

impl Default for Limits {
    fn default() -> (l: Self)
        ensures
            l.mailbox_max_bytes == MAILBOX_MAX_BYTES,
            l.mailbox_max_age_secs == MAILBOX_MAX_AGE_SECS,
    {
        Limits { mailbox_max_bytes: MAILBOX_MAX_BYTES, mailbox_max_age_secs: MAILBOX_MAX_AGE_SECS }
    }
}

/// A stored inner envelope (its padded encoding).
#[derive(Debug)]
pub struct StoredEnvelope {
    pub seq: u64,
    pub received_at: u64,
    pub expires_at: u64,
    pub inner: Vec<u8>,
}

/// The content of a [`StoredEnvelope`].
pub struct EnvelopeView {
    pub seq: u64,
    pub received_at: u64,
    pub expires_at: u64,
    pub inner: Seq<u8>,
}

impl View for StoredEnvelope {
    type V = EnvelopeView;

    open spec fn view(&self) -> EnvelopeView {
        EnvelopeView {
            seq: self.seq,
            received_at: self.received_at,
            expires_at: self.expires_at,
            inner: self.inner@,
        }
    }
}

pub open spec fn envs_view(s: Seq<StoredEnvelope>) -> Seq<EnvelopeView> {
    Seq::new(s.len(), |i: int| s[i]@)
}

/// Total stored size.
pub open spec fn total_size(rows: Seq<EnvelopeView>) -> nat
    decreases rows.len(),
{
    if rows.len() == 0 {
        0
    } else {
        total_size(rows.drop_last()) + rows.last().inner.len()
    }
}

/// Past its own expiry, or older than the mailbox allows.
pub open spec fn too_old(r: EnvelopeView, now: u64, max_age: u64) -> bool {
    r.expires_at <= now || (now >= r.received_at && now - r.received_at > max_age)
}

/// The rows that are not too old, in order.
pub open spec fn unexpired(rows: Seq<EnvelopeView>, now: u64, max_age: u64) -> Seq<EnvelopeView>
    decreases rows.len(),
{
    if rows.len() == 0 {
        seq![]
    } else {
        let prev = unexpired(rows.drop_last(), now, max_age);
        if too_old(rows.last(), now, max_age) {
            prev
        } else {
            prev.push(rows.last())
        }
    }
}

/// Drops the oldest rows while the mailbox is over its size bound.
pub open spec fn drop_oldest(rows: Seq<EnvelopeView>, max_bytes: u64) -> Seq<EnvelopeView>
    decreases rows.len(),
{
    if rows.len() > 0 && total_size(rows) > max_bytes {
        drop_oldest(rows.drop_first(), max_bytes)
    } else {
        rows
    }
}

/// The rows a collection keeps: too old ones go, then the oldest until the
/// size bound holds.
pub open spec fn collected(rows: Seq<EnvelopeView>, now: u64, limits: Limits) -> Seq<EnvelopeView> {
    drop_oldest(unexpired(rows, now, limits.mailbox_max_age_secs), limits.mailbox_max_bytes)
}

pub open spec fn has_seq(rows: Seq<EnvelopeView>, s: u64) -> bool {
    exists|i: int| 0 <= i < rows.len() && rows[i].seq == s
}

/// The sequence number an idempotency token was stored under.
pub open spec fn idem_lookup(idem: Seq<(Seq<u8>, u64)>, token: Seq<u8>) -> Option<u64>
    decreases idem.len(),
{
    if idem.len() == 0 {
        None
    } else if idem[0].0 == token {
        Some(idem[0].1)
    } else {
        idem_lookup(idem.drop_first(), token)
    }
}

/// An idempotency entry goes when its row went.
pub open spec fn row_went(e: (Seq<u8>, u64), before: Seq<EnvelopeView>, after: Seq<EnvelopeView>) -> bool {
    has_seq(before, e.1) && !has_seq(after, e.1)
}

/// Idempotency entries after a collection: those whose row went are gone.
pub open spec fn idem_after(
    idem: Seq<(Seq<u8>, u64)>,
    before: Seq<EnvelopeView>,
    after: Seq<EnvelopeView>,
) -> Seq<(Seq<u8>, u64)>
    decreases idem.len(),
{
    if idem.len() == 0 {
        seq![]
    } else {
        let prev = idem_after(idem.drop_last(), before, after);
        if row_went(idem.last(), before, after) {
            prev
        } else {
            prev.push(idem.last())
        }
    }
}

/// Strictly increasing sequence numbers.
pub open spec fn ordered(rows: Seq<EnvelopeView>) -> bool {
    forall|i: int, j: int| 0 <= i < j < rows.len() ==> rows[i].seq < rows[j].seq
}

proof fn lemma_total_first(rows: Seq<EnvelopeView>)
    requires
        rows.len() > 0,
    ensures
        total_size(rows) == rows[0].inner.len() + total_size(rows.drop_first()),
    decreases rows.len(),
{
    if rows.len() > 1 {
        lemma_total_first(rows.drop_last());
        assert(rows.drop_last().drop_first() =~= rows.drop_first().drop_last());
    } else {
        assert(rows.drop_first() =~= Seq::<EnvelopeView>::empty());
        assert(rows.drop_last() =~= Seq::<EnvelopeView>::empty());
    }
}

proof fn lemma_unexpired(rows: Seq<EnvelopeView>, now: u64, max_age: u64)
    ensures
        total_size(unexpired(rows, now, max_age)) <= total_size(rows),
        unexpired(rows, now, max_age).len() <= rows.len(),
        forall|i: int|
            0 <= i < unexpired(rows, now, max_age).len() ==> exists|j: int|
                0 <= j < rows.len() && #[trigger] unexpired(rows, now, max_age)[i] == rows[j],
        ordered(rows) ==> ordered(unexpired(rows, now, max_age)),
    decreases rows.len(),
{
    if rows.len() > 0 {
        let d = rows.drop_last();
        lemma_unexpired(d, now, max_age);
        let p = unexpired(d, now, max_age);
        let u = unexpired(rows, now, max_age);
        assert forall|i: int| 0 <= i < u.len() implies exists|j: int|
            0 <= j < rows.len() && #[trigger] u[i] == rows[j] by {
            if i < p.len() {
                assert(u[i] == p[i]);
                let j = choose|j: int| 0 <= j < d.len() && p[i] == d[j];
                assert(rows[j] == d[j]);
            } else {
                assert(u[i] == rows[rows.len() - 1]);
            }
        }
        if ordered(rows) {
            assert(ordered(d));
            if !too_old(rows.last(), now, max_age) {
                assert forall|i: int, j: int| 0 <= i < j < u.len() implies u[i].seq < u[j].seq by {
                    if j == u.len() - 1 {
                        let k = choose|k: int| 0 <= k < d.len() && p[i] == d[k];
                        assert(u[i] == p[i]);
                        assert(d[k] == rows[k]);
                        assert(u[j] == rows[rows.len() - 1]);
                    } else {
                        assert(u[i] == p[i] && u[j] == p[j]);
                    }
                }
            }
        }
        if !too_old(rows.last(), now, max_age) {
            assert(p.push(rows.last()).drop_last() =~= p);
        }
    }
}

proof fn lemma_drop_oldest_suffix(rows: Seq<EnvelopeView>, max_bytes: u64)
    ensures
        exists|k: int| 0 <= k <= rows.len() && drop_oldest(rows, max_bytes) == rows.skip(k),
    decreases rows.len(),
{
    if rows.len() > 0 && total_size(rows) > max_bytes {
        lemma_drop_oldest_suffix(rows.drop_first(), max_bytes);
        let k = choose|k: int|
            0 <= k <= rows.drop_first().len() && drop_oldest(rows.drop_first(), max_bytes)
                == rows.drop_first().skip(k);
        assert(rows.drop_first().skip(k) =~= rows.skip(k + 1));
    } else {
        assert(rows.skip(0) =~= rows);
    }
}

proof fn lemma_total_prefix(rows: Seq<EnvelopeView>, k: int)
    requires
        0 <= k <= rows.len(),
    ensures
        total_size(rows.take(k)) <= total_size(rows),
    decreases rows.len(),
{
    if k < rows.len() {
        lemma_total_prefix(rows.drop_last(), k);
        assert(rows.drop_last().take(k) =~= rows.take(k));
    } else {
        assert(rows.take(k) =~= rows);
    }
}

/// After a collection the mailbox is within its size bound, or empty.
pub proof fn lemma_drop_oldest_bound(rows: Seq<EnvelopeView>, max_bytes: u64)
    ensures
        total_size(drop_oldest(rows, max_bytes)) <= max_bytes || drop_oldest(rows, max_bytes).len()
            == 0,
    decreases rows.len(),
{
    if rows.len() > 0 && total_size(rows) > max_bytes {
        lemma_drop_oldest_bound(rows.drop_first(), max_bytes);
    }
}

/// One identity's mailbox.
pub struct Mailbox {
    owner_pk: [u8; KEY_LEN],
    next_seq: u64,
    rows: Vec<StoredEnvelope>,
    idempotency: Vec<([u8; KEY_LEN], u64)>,
    bytes: u64,
    disabled: bool,
}

impl Mailbox {
    pub closed spec fn rows(self) -> Seq<EnvelopeView> {
        envs_view(self.rows@)
    }

    pub closed spec fn next_seq(self) -> u64 {
        self.next_seq
    }

    pub closed spec fn bytes(self) -> u64 {
        self.bytes
    }

    pub closed spec fn disabled(self) -> bool {
        self.disabled
    }

    pub closed spec fn owner(self) -> Seq<u8> {
        self.owner_pk@
    }

    /// Idempotency tokens with the sequence numbers they were stored under,
    /// oldest first.
    pub closed spec fn idem(self) -> Seq<(Seq<u8>, u64)> {
        Seq::new(
            self.idempotency@.len(),
            |i: int| (self.idempotency@[i].0@, self.idempotency@[i].1),
        )
    }

    /// Rows in increasing sequence order, all below the next number and
    /// above zero; the byte count is their total size.
    pub closed spec fn wf(self) -> bool {
        &&& ordered(self.rows())
        &&& forall|i: int| 0 <= i < self.rows().len() ==> 1 <= #[trigger] self.rows()[i].seq
            < self.next_seq
        &&& self.next_seq >= 1
        &&& self.bytes == total_size(self.rows())
    }

    /// An empty mailbox; the first row will be number 1.
    pub fn new(owner_pk: [u8; KEY_LEN]) -> (m: Mailbox)
        ensures
            m.wf(),
            m.rows() == Seq::<EnvelopeView>::empty(),
            m.next_seq() == 1,
            m.bytes() == 0,
            !m.disabled(),
            m.owner() == owner_pk@,
            m.idem() == Seq::<(Seq<u8>, u64)>::empty(),
    {
        let m = Mailbox {
            owner_pk,
            next_seq: 1,
            rows: Vec::new(),
            idempotency: Vec::new(),
            bytes: 0,
            disabled: false,
        };
        assert(m.rows() =~= Seq::<EnvelopeView>::empty());
        assert(m.idem() =~= Seq::<(Seq<u8>, u64)>::empty());
        m
    }

    /// The number an idempotency token was stored under, if it was seen.
    pub fn token_seq(&self, token: &[u8; KEY_LEN]) -> (r: Option<u64>)
        ensures
            r == idem_lookup(self.idem(), token@),
    {
        let mut i: usize = 0;
        assert(self.idem().skip(0) =~= self.idem());
        while i < self.idempotency.len()
            invariant
                i <= self.idempotency@.len(),
                idem_lookup(self.idem(), token@) == idem_lookup(self.idem().skip(i as int), token@),
            decreases self.idempotency@.len() - i,
        {
            let ghost rest = self.idem().skip(i as int);
            assert(rest[0] == self.idem()[i as int]);
            if same_token(&self.idempotency[i].0, token) {
                return Some(self.idempotency[i].1);
            }
            assert(rest.drop_first() =~= self.idem().skip(i + 1));
            i = i + 1;
        }
        proof {
            assert(self.idem().skip(i as int) =~= Seq::<(Seq<u8>, u64)>::empty());
        }
        None
    }

    /// The number the next new row gets.
    pub fn next_number(&self) -> (r: u64)
        ensures
            r == self.next_seq(),
    {
        self.next_seq
    }

    /// The bytes the rows hold.
    pub fn size_bytes(&self) -> (r: u64)
        ensures
            r == self.bytes(),
    {
        self.bytes
    }

    pub fn is_disabled(&self) -> (r: bool)
        ensures
            r == self.disabled(),
    {
        self.disabled
    }

    pub fn owner_pk(&self) -> (r: [u8; KEY_LEN])
        ensures
            r@ == self.owner(),
    {
        self.owner_pk
    }
}

fn seq_list(rows: &Vec<StoredEnvelope>) -> (r: Vec<u64>)
    ensures
        forall|s: u64| (exists|i: int| 0 <= i < r@.len() && r@[i] == s) <==> has_seq(
            envs_view(rows@),
            s,
        ),
{
    let mut out: Vec<u64> = Vec::new();
    let mut i: usize = 0;
    while i < rows.len()
        invariant
            i <= rows@.len(),
            out@.len() == i,
            forall|k: int| 0 <= k < i ==> out@[k] == rows@[k].seq,
        decreases rows@.len() - i,
    {
        out.push(rows[i].seq);
        i = i + 1;
    }
    proof {
        let v = envs_view(rows@);
        assert forall|s: u64| (exists|i: int| 0 <= i < out@.len() && out@[i] == s) <==> has_seq(v, s) by {
            if exists|i: int| 0 <= i < out@.len() && out@[i] == s {
                let i = choose|i: int| 0 <= i < out@.len() && out@[i] == s;
                assert(v[i].seq == s);
            }
            if has_seq(v, s) {
                let i = choose|i: int| 0 <= i < v.len() && v[i].seq == s;
                assert(out@[i] == s);
            }
        }
    }
    out
}

fn contains_u64(v: &Vec<u64>, s: u64) -> (r: bool)
    ensures
        r == exists|i: int| 0 <= i < v@.len() && v@[i] == s,
{
    let mut i: usize = 0;
    while i < v.len()
        invariant
            i <= v@.len(),
            forall|k: int| 0 <= k < i ==> v@[k] != s,
        decreases v@.len() - i,
    {
        if v[i] == s {
            return true;
        }
        i = i + 1;
    }
    false
}

pub open spec fn idem_view(v: Seq<([u8; KEY_LEN], u64)>) -> Seq<(Seq<u8>, u64)> {
    Seq::new(v.len(), |i: int| (v[i].0@, v[i].1))
}

impl Mailbox {
    proof fn lemma_members_bounded(self, rows: Seq<EnvelopeView>)
        requires
            self.wf(),
            forall|i: int|
                0 <= i < rows.len() ==> exists|j: int|
                    0 <= j < self.rows().len() && #[trigger] rows[i] == self.rows()[j],
        ensures
            forall|i: int| 0 <= i < rows.len() ==> 1 <= #[trigger] rows[i].seq < self.next_seq(),
    {
        assert forall|i: int| 0 <= i < rows.len() implies 1 <= #[trigger] rows[i].seq
            < self.next_seq() by {
            let j = choose|j: int| 0 <= j < self.rows().len() && rows[i] == self.rows()[j];
            assert(1 <= self.rows()[j].seq < self.next_seq);
        }
    }

    /// Drops rows that are too old, then the oldest rows while the mailbox
    /// is over its size bound; idempotency entries of dropped rows go too.
    pub fn collect(&mut self, now: u64, limits: Limits)
        requires
            old(self).wf(),
        ensures
            final(self).wf(),
            final(self).rows() == collected(old(self).rows(), now, limits),
            final(self).idem() == idem_after(old(self).idem(), old(self).rows(), final(self).rows()),
            final(self).next_seq() == old(self).next_seq(),
            final(self).disabled() == old(self).disabled(),
            final(self).owner() == old(self).owner(),
            total_size(final(self).rows()) <= limits.mailbox_max_bytes || final(self).rows().len()
                == 0,
    {
        let ghost orig = self.rows();
        let before_seqs = seq_list(&self.rows);
        let max_age = limits.mailbox_max_age_secs;
        let max_bytes = limits.mailbox_max_bytes;
        let mut rest: Vec<StoredEnvelope> = Vec::new();
        std::mem::swap(&mut rest, &mut self.rows);
        let mut kept: Vec<StoredEnvelope> = Vec::new();
        let mut kept_bytes: u64 = 0;
        let ghost n = rest@.len();
        proof {
            assert(envs_view(rest@) =~= orig.skip(0));
            assert(orig.take(0) =~= Seq::<EnvelopeView>::empty());
            assert(envs_view(kept@) =~= Seq::<EnvelopeView>::empty());
        }
        while rest.len() > 0
            invariant
                n == orig.len(),
                rest@.len() <= n,
                envs_view(rest@) == orig.skip(n - rest@.len()),
                envs_view(kept@) == unexpired(orig.take(n - rest@.len()), now, max_age),
                kept_bytes == total_size(envs_view(kept@)),
                total_size(orig) <= u64::MAX,
                max_age == limits.mailbox_max_age_secs,
            decreases rest@.len(),
        {
            let ghost i = n - rest@.len();
            let ghost rv = envs_view(rest@);
            let ghost rs = rest@;
            let r = rest.remove(0);
            proof {
                assert(rv[0] == orig[i]);
                assert(rs[0] == r);
                assert forall|k: int| 0 <= k < rest@.len() implies #[trigger] envs_view(rest@)[k]
                    == orig.skip(i + 1)[k] by {
                    assert(rest@[k] == rs[k + 1]);
                    assert(rv[k + 1] == orig.skip(i)[k + 1]);
                }
                assert(envs_view(rest@) =~= orig.skip(i + 1));
                assert(orig.take(i + 1).drop_last() =~= orig.take(i));
                assert(orig.take(i + 1).last() == orig[i]);
                lemma_unexpired(orig.take(i + 1), now, max_age);
                lemma_total_prefix(orig, i + 1);
            }
            let old_row = r.expires_at <= now || (now >= r.received_at && now - r.received_at
                > max_age);
            if !old_row {
                let ghost kv = envs_view(kept@);
                proof {
                    assert(!too_old(orig[i], now, max_age));
                    assert(unexpired(orig.take(i + 1), now, max_age) == kv.push(orig[i]));
                    assert(kv.push(orig[i]).drop_last() =~= kv);
                    assert(total_size(kv.push(orig[i])) == kept_bytes + r.inner@.len());
                }
                kept_bytes = kept_bytes + r.inner.len() as u64;
                kept.push(r);
                proof {
                    assert(envs_view(kept@) =~= kv.push(orig[i]));
                    assert(envs_view(kept@).drop_last() =~= kv);
                }
            }
        }
        proof {
            assert(orig.take(n as int) =~= orig);
        }
        let ghost u = envs_view(kept@);
        while kept_bytes > max_bytes && kept.len() > 0
            invariant
                drop_oldest(envs_view(kept@), max_bytes) == drop_oldest(u, max_bytes),
                kept_bytes == total_size(envs_view(kept@)),
            decreases kept@.len(),
        {
            let ghost kv = envs_view(kept@);
            proof {
                lemma_total_first(kv);
            }
            let r = kept.remove(0);
            proof {
                assert(envs_view(kept@) =~= kv.drop_first());
            }
            kept_bytes = kept_bytes - r.inner.len() as u64;
        }
        self.rows = kept;
        self.bytes = kept_bytes;
        proof {
            lemma_unexpired(orig, now, max_age);
            lemma_drop_oldest_suffix(u, max_bytes);
            let k = choose|k: int| 0 <= k <= u.len() && drop_oldest(u, max_bytes) == u.skip(k);
            let fin = self.rows();
            assert(fin == u.skip(k));
            assert forall|i: int| 0 <= i < fin.len() implies exists|j: int|
                0 <= j < orig.len() && #[trigger] fin[i] == orig[j] by {
                assert(fin[i] == u[i + k]);
            }
            old(self).lemma_members_bounded(fin);
            assert forall|i: int, j: int| 0 <= i < j < fin.len() implies fin[i].seq < fin[j].seq by {
                assert(fin[i] == u[i + k] && fin[j] == u[j + k]);
            }
        }
        proof {
            lemma_drop_oldest_bound(u, max_bytes);
        }
        let after_seqs = seq_list(&self.rows);
        let mut old_idem: Vec<([u8; KEY_LEN], u64)> = Vec::new();
        std::mem::swap(&mut old_idem, &mut self.idempotency);
        let ghost oi = idem_view(old_idem@);
        let ghost fin = self.rows();
        let mut kept_idem: Vec<([u8; KEY_LEN], u64)> = Vec::new();
        let mut i: usize = 0;
        proof {
            assert(oi.take(0) =~= Seq::<(Seq<u8>, u64)>::empty());
            assert(idem_view(kept_idem@) =~= Seq::<(Seq<u8>, u64)>::empty());
        }
        while i < old_idem.len()
            invariant
                i <= old_idem@.len(),
                oi == idem_view(old_idem@),
                idem_view(kept_idem@) == idem_after(oi.take(i as int), orig, fin),
                forall|s: u64| (exists|m: int| 0 <= m < before_seqs@.len() && before_seqs@[m] == s)
                    <==> has_seq(orig, s),
                forall|s: u64| (exists|m: int| 0 <= m < after_seqs@.len() && after_seqs@[m] == s)
                    <==> has_seq(fin, s),
            decreases old_idem@.len() - i,
        {
            let e = old_idem[i];
            proof {
                assert(oi.take(i + 1).drop_last() =~= oi.take(i as int));
                assert(oi.take(i + 1).last() == oi[i as int]);
            }
            let went = contains_u64(&before_seqs, e.1) && !contains_u64(&after_seqs, e.1);
            if !went {
                let ghost kv = idem_view(kept_idem@);
                kept_idem.push(e);
                assert(idem_view(kept_idem@) =~= kv.push(oi[i as int]));
            }
            i = i + 1;
        }
        proof {
            assert(oi.take(i as int) =~= oi);
        }
        self.idempotency = kept_idem;
    }
}

pub open spec fn sat_add(a: u64, b: u64) -> u64 {
    if a + b > u64::MAX {
        u64::MAX
    } else {
        (a + b) as u64
    }
}

/// When a stored envelope expires: after its bucket's lifetime, but never
/// later than the mailbox's age bound.
pub open spec fn expiry_of(now: u64, ttl: TtlBucket, max_age: u64) -> u64 {
    let cap = sat_add(now, max_age);
    match ttl_secs_of(ttl) {
        Some(s) => if sat_add(now, s) <= cap {
            sat_add(now, s)
        } else {
            cap
        },
        None => cap,
    }
}

pub fn envelope_expiry(now: u64, ttl: TtlBucket, max_age: u64) -> (r: u64)
    ensures
        r == expiry_of(now, ttl, max_age),
{
    let cap = now.saturating_add(max_age);
    match ttl.ttl_secs() {
        Some(s) => {
            let e = now.saturating_add(s);
            if e <= cap {
                e
            } else {
                cap
            }
        },
        None => cap,
    }
}

fn same_token(a: &[u8; KEY_LEN], b: &[u8; KEY_LEN]) -> (r: bool)
    ensures
        r == (a@ == b@),
{
    let mut i: usize = 0;
    while i < KEY_LEN
        invariant
            a@.len() == KEY_LEN,
            b@.len() == KEY_LEN,
            i <= KEY_LEN,
            forall|k: int| 0 <= k < i ==> a@[k] == b@[k],
        decreases KEY_LEN - i,
    {
        if a[i] != b[i] {
            return false;
        }
        i = i + 1;
    }
    assert(a@ =~= b@);
    true
}

fn copy_env(r: &StoredEnvelope) -> (c: StoredEnvelope)
    ensures
        c@ == r@,
{
    let mut inner: Vec<u8> = Vec::new();
    let mut i: usize = 0;
    while i < r.inner.len()
        invariant
            i <= r.inner@.len(),
            inner@ == r.inner@.take(i as int),
        decreases r.inner@.len() - i,
    {
        inner.push(r.inner[i]);
        i = i + 1;
        assert(inner@ =~= r.inner@.take(i as int));
    }
    assert(r.inner@.take(i as int) =~= r.inner@);
    StoredEnvelope { seq: r.seq, received_at: r.received_at, expires_at: r.expires_at, inner }
}

/// The rows a fetch can see: after the cursor and not expired.
pub open spec fn visible(rows: Seq<EnvelopeView>, cursor: u64, now: u64) -> Seq<EnvelopeView>
    decreases rows.len(),
{
    if rows.len() == 0 {
        seq![]
    } else {
        let prev = visible(rows.drop_last(), cursor, now);
        if rows.last().seq > cursor && rows.last().expires_at > now {
            prev.push(rows.last())
        } else {
            prev
        }
    }
}

/// The rows an acknowledgement keeps: those after it.
pub open spec fn after_ack(rows: Seq<EnvelopeView>, up_to: u64) -> Seq<EnvelopeView>
    decreases rows.len(),
{
    if rows.len() == 0 {
        seq![]
    } else {
        let prev = after_ack(rows.drop_last(), up_to);
        if rows.last().seq > up_to {
            prev.push(rows.last())
        } else {
            prev
        }
    }
}

proof fn lemma_after_ack(rows: Seq<EnvelopeView>, up_to: u64)
    ensures
        total_size(after_ack(rows, up_to)) <= total_size(rows),
        forall|i: int|
            0 <= i < after_ack(rows, up_to).len() ==> exists|j: int|
                0 <= j < rows.len() && #[trigger] after_ack(rows, up_to)[i] == rows[j],
        forall|i: int|
            0 <= i < after_ack(rows, up_to).len() ==> #[trigger] after_ack(rows, up_to)[i].seq
                > up_to,
        ordered(rows) ==> ordered(after_ack(rows, up_to)),
    decreases rows.len(),
{
    if rows.len() > 0 {
        let d = rows.drop_last();
        lemma_after_ack(d, up_to);
        let p = after_ack(d, up_to);
        let u = after_ack(rows, up_to);
        assert forall|i: int| 0 <= i < u.len() implies exists|j: int|
            0 <= j < rows.len() && #[trigger] u[i] == rows[j] by {
            if i < p.len() {
                assert(u[i] == p[i]);
                let j = choose|j: int| 0 <= j < d.len() && p[i] == d[j];
                assert(rows[j] == d[j]);
            } else {
                assert(u[i] == rows[rows.len() - 1]);
            }
        }
        assert forall|i: int| 0 <= i < u.len() implies #[trigger] u[i].seq > up_to by {
            if i < p.len() {
                assert(u[i] == p[i]);
            }
        }
        if ordered(rows) {
            assert(ordered(d));
            if rows.last().seq > up_to {
                assert forall|i: int, j: int| 0 <= i < j < u.len() implies u[i].seq < u[j].seq by {
                    if j == u.len() - 1 {
                        let k = choose|k: int| 0 <= k < d.len() && p[i] == d[k];
                        assert(u[i] == p[i]);
                        assert(d[k] == rows[k]);
                        assert(u[j] == rows[rows.len() - 1]);
                    } else {
                        assert(u[i] == p[i] && u[j] == p[j]);
                    }
                }
            }
        }
        if rows.last().seq > up_to {
            assert(p.push(rows.last()).drop_last() =~= p);
        }
    }
}

impl Mailbox {
    /// Appends an inner envelope under a fresh sequence number, unless its
    /// idempotency token was seen: then the earlier number is returned and
    /// nothing changes. The mailbox is collected afterwards.
    pub fn append(
        &mut self,
        token: [u8; KEY_LEN],
        inner: Vec<u8>,
        now: u64,
        ttl: TtlBucket,
        limits: Limits,
    ) -> (seq: u64)
        requires
            old(self).wf(),
            old(self).next_seq() < u64::MAX,
            old(self).bytes() + inner@.len() <= u64::MAX,
        ensures
            final(self).wf(),
            match idem_lookup(old(self).idem(), token@) {
                Some(s) => seq == s && *final(self) == *old(self),
                None => {
                    let row = EnvelopeView {
                        seq,
                        received_at: now,
                        expires_at: expiry_of(now, ttl, limits.mailbox_max_age_secs),
                        inner: inner@,
                    };
                    &&& seq == old(self).next_seq()
                    &&& forall|i: int| 0 <= i < old(self).rows().len() ==> #[trigger] old(self).rows()[i].seq < seq
                    &&& final(self).next_seq() == old(self).next_seq() + 1
                    &&& final(self).rows() == collected(old(self).rows().push(row), now, limits)
                    &&& final(self).idem() == idem_after(
                        old(self).idem().push((token@, seq)),
                        old(self).rows().push(row),
                        final(self).rows(),
                    )
                    &&& final(self).disabled() == old(self).disabled()
                    &&& final(self).owner() == old(self).owner()
                },
            },
    {
        let mut i: usize = 0;
        assert(self.idem().skip(0) =~= self.idem());
        while i < self.idempotency.len()
            invariant
                *self == *old(self),
                self.wf(),
                i <= self.idempotency@.len(),
                idem_lookup(self.idem(), token@) == idem_lookup(self.idem().skip(i as int), token@),
            decreases self.idempotency@.len() - i,
        {
            let ghost rest = self.idem().skip(i as int);
            assert(rest[0] == self.idem()[i as int]);
            if same_token(&self.idempotency[i].0, &token) {
                return self.idempotency[i].1;
            }
            assert(rest.drop_first() =~= self.idem().skip(i + 1));
            i = i + 1;
        }
        proof {
            assert(self.idem().skip(i as int) =~= Seq::<(Seq<u8>, u64)>::empty());
        }
        let seq = self.next_seq;
        let expires_at = envelope_expiry(now, ttl, limits.mailbox_max_age_secs);
        let size = inner.len() as u64;
        let row = StoredEnvelope { seq, received_at: now, expires_at, inner };
        let ghost rv = row@;
        let ghost before_rows = self.rows();
        let ghost before_idem = self.idem();
        self.next_seq = self.next_seq + 1;
        self.idempotency.push((token, seq));
        self.bytes = self.bytes + size;
        self.rows.push(row);
        proof {
            assert(self.rows() =~= before_rows.push(rv));
            assert(self.idem() =~= before_idem.push((token@, seq)));
            assert(self.rows().drop_last() =~= before_rows);
            assert forall|a: int, b: int| 0 <= a < b < self.rows().len() implies self.rows()[a].seq
                < self.rows()[b].seq by {
                if b == self.rows().len() - 1 {
                    assert(self.rows()[a] == before_rows[a]);
                }
            }
        }
        self.collect(now, limits);
        seq
    }

    /// Rows after `cursor` that have not expired, oldest first, at most
    /// `limit` of them; the mailbox is collected first. A limit outside
    /// `1..=FETCH_LIMIT_MAX` is refused and nothing changes.
    pub fn fetch(&mut self, cursor: u64, limit: u64, now: u64, limits: Limits) -> (r: Result<
        Vec<StoredEnvelope>,
        ServerError,
    >)
        requires
            old(self).wf(),
        ensures
            final(self).wf(),
            limit == 0 || limit > FETCH_LIMIT_MAX ==> r == Err::<Vec<StoredEnvelope>, ServerError>(
                ServerError::FetchLimit,
            ) && *final(self) == *old(self),
            !(limit == 0 || limit > FETCH_LIMIT_MAX) ==> {
                &&& final(self).rows() == collected(old(self).rows(), now, limits)
                &&& final(self).idem() == idem_after(
                    old(self).idem(),
                    old(self).rows(),
                    final(self).rows(),
                )
                &&& final(self).next_seq() == old(self).next_seq()
                &&& final(self).disabled() == old(self).disabled()
                &&& final(self).owner() == old(self).owner()
                &&& r matches Ok(v) && {
                    let all = visible(final(self).rows(), cursor, now);
                    envs_view(v@) == all.take(
                        if all.len() <= limit {
                            all.len() as int
                        } else {
                            limit as int
                        },
                    )
                }
            },
    {
        if limit == 0 || limit > FETCH_LIMIT_MAX {
            return Err(ServerError::FetchLimit);
        }
        self.collect(now, limits);
        let ghost rows = self.rows();
        let mut out: Vec<StoredEnvelope> = Vec::new();
        let mut i: usize = 0;
        proof {
            assert(rows.take(0) =~= Seq::<EnvelopeView>::empty());
            assert(envs_view(out@) =~= Seq::<EnvelopeView>::empty());
        }
        while i < self.rows.len() && (out.len() as u64) < limit
            invariant
                rows == self.rows(),
                i <= rows.len(),
                envs_view(out@) == visible(rows.take(i as int), cursor, now),
                out@.len() <= limit,
            decreases rows.len() - i,
        {
            proof {
                assert(rows.take(i + 1).drop_last() =~= rows.take(i as int));
                assert(rows.take(i + 1).last() == rows[i as int]);
            }
            if self.rows[i].seq > cursor && self.rows[i].expires_at > now {
                let ghost ov = envs_view(out@);
                out.push(copy_env(&self.rows[i]));
                assert(envs_view(out@) =~= ov.push(rows[i as int]));
            }
            i = i + 1;
        }
        proof {
            let all = visible(rows, cursor, now);
            lemma_visible_prefix(rows, i as int, cursor, now);
            if out@.len() < limit {
                assert(i == rows.len());
                assert(rows.take(i as int) =~= rows);
            }
            assert(envs_view(out@) =~= all.take(out@.len() as int));
            if all.len() <= limit {
                assert(out@.len() == all.len());
            }
        }
        Ok(out)
    }
}

/// The visible rows of a prefix are a prefix of the visible rows, and grow
/// by at most one per row.
proof fn lemma_visible_prefix(rows: Seq<EnvelopeView>, i: int, cursor: u64, now: u64)
    requires
        0 <= i <= rows.len(),
    ensures
        visible(rows.take(i), cursor, now).len() <= visible(rows, cursor, now).len(),
        visible(rows.take(i), cursor, now) == visible(rows, cursor, now).take(
            visible(rows.take(i), cursor, now).len() as int,
        ),
    decreases rows.len() - i,
{
    if i == rows.len() {
        assert(rows.take(i) =~= rows);
        assert(visible(rows, cursor, now).take(visible(rows, cursor, now).len() as int)
            =~= visible(rows, cursor, now));
    } else {
        lemma_visible_prefix(rows, i + 1, cursor, now);
        assert(rows.take(i + 1).drop_last() =~= rows.take(i));
        let a = visible(rows.take(i), cursor, now);
        let b = visible(rows.take(i + 1), cursor, now);
        let all = visible(rows, cursor, now);
        assert(b == a || b == a.push(rows[i]));
        assert(a =~= b.take(a.len() as int));
        assert(all.take(b.len() as int).take(a.len() as int) =~= all.take(a.len() as int));
    }
}

impl Mailbox {
    /// Drops every row up to and including `up_to`. Idempotency entries
    /// stay.
    pub fn ack(&mut self, up_to: u64)
        requires
            old(self).wf(),
        ensures
            final(self).wf(),
            final(self).rows() == after_ack(old(self).rows(), up_to),
            final(self).idem() == old(self).idem(),
            final(self).next_seq() == old(self).next_seq(),
            final(self).disabled() == old(self).disabled(),
            final(self).owner() == old(self).owner(),
    {
        let ghost orig = self.rows();
        let mut rest: Vec<StoredEnvelope> = Vec::new();
        std::mem::swap(&mut rest, &mut self.rows);
        let mut kept: Vec<StoredEnvelope> = Vec::new();
        let mut kept_bytes: u64 = 0;
        let ghost n = rest@.len();
        proof {
            assert(envs_view(rest@) =~= orig.skip(0));
            assert(orig.take(0) =~= Seq::<EnvelopeView>::empty());
            assert(envs_view(kept@) =~= Seq::<EnvelopeView>::empty());
        }
        while rest.len() > 0
            invariant
                n == orig.len(),
                rest@.len() <= n,
                envs_view(rest@) == orig.skip(n - rest@.len()),
                envs_view(kept@) == after_ack(orig.take(n - rest@.len()), up_to),
                kept_bytes == total_size(envs_view(kept@)),
                total_size(orig) <= u64::MAX,
            decreases rest@.len(),
        {
            let ghost i = n - rest@.len();
            let ghost rv = envs_view(rest@);
            let ghost rs = rest@;
            let r = rest.remove(0);
            proof {
                assert(rv[0] == orig[i]);
                assert(rs[0] == r);
                assert forall|k: int| 0 <= k < rest@.len() implies #[trigger] envs_view(rest@)[k]
                    == orig.skip(i + 1)[k] by {
                    assert(rest@[k] == rs[k + 1]);
                    assert(rv[k + 1] == orig.skip(i)[k + 1]);
                }
                assert(envs_view(rest@) =~= orig.skip(i + 1));
                assert(orig.take(i + 1).drop_last() =~= orig.take(i));
                assert(orig.take(i + 1).last() == orig[i]);
                lemma_after_ack(orig.take(i + 1), up_to);
                lemma_total_prefix(orig, i + 1);
            }
            if r.seq > up_to {
                let ghost kv = envs_view(kept@);
                proof {
                    assert(after_ack(orig.take(i + 1), up_to) == kv.push(orig[i]));
                    assert(kv.push(orig[i]).drop_last() =~= kv);
                    assert(total_size(kv.push(orig[i])) == kept_bytes + r.inner@.len());
                }
                kept_bytes = kept_bytes + r.inner.len() as u64;
                kept.push(r);
                proof {
                    assert(envs_view(kept@) =~= kv.push(orig[i]));
                }
            }
        }
        proof {
            assert(orig.take(n as int) =~= orig);
            lemma_after_ack(orig, up_to);
        }
        self.rows = kept;
        self.bytes = kept_bytes;
        proof {
            old(self).lemma_members_bounded(self.rows());
        }
    }

    /// Empties the mailbox for good (after a revocation or a move to another
    /// home); idempotency entries of its rows go too.
    pub fn disable(&mut self)
        requires
            old(self).wf(),
        ensures
            final(self).wf(),
            final(self).rows() == Seq::<EnvelopeView>::empty(),
            final(self).idem() == idem_after(old(self).idem(), old(self).rows(), Seq::<EnvelopeView>::empty()),
            final(self).disabled(),
            final(self).next_seq() == old(self).next_seq(),
            final(self).owner() == old(self).owner(),
    {
        let ghost orig = self.rows();
        let before_seqs = seq_list(&self.rows);
        self.rows = Vec::new();
        self.bytes = 0;
        self.disabled = true;
        let mut old_idem: Vec<([u8; KEY_LEN], u64)> = Vec::new();
        std::mem::swap(&mut old_idem, &mut self.idempotency);
        let ghost oi = idem_view(old_idem@);
        let ghost fin = Seq::<EnvelopeView>::empty();
        let mut kept_idem: Vec<([u8; KEY_LEN], u64)> = Vec::new();
        let mut i: usize = 0;
        proof {
            assert(self.rows() =~= fin);
            assert(oi.take(0) =~= Seq::<(Seq<u8>, u64)>::empty());
            assert(idem_view(kept_idem@) =~= Seq::<(Seq<u8>, u64)>::empty());
        }
        while i < old_idem.len()
            invariant
                i <= old_idem@.len(),
                oi == idem_view(old_idem@),
                fin == Seq::<EnvelopeView>::empty(),
                idem_view(kept_idem@) == idem_after(oi.take(i as int), orig, fin),
                forall|s: u64| (exists|m: int| 0 <= m < before_seqs@.len() && before_seqs@[m] == s)
                    <==> has_seq(orig, s),
            decreases old_idem@.len() - i,
        {
            let e = old_idem[i];
            proof {
                assert(oi.take(i + 1).drop_last() =~= oi.take(i as int));
                assert(oi.take(i + 1).last() == oi[i as int]);
                assert(!has_seq(fin, e.1));
            }
            if !contains_u64(&before_seqs, e.1) {
                let ghost kv = idem_view(kept_idem@);
                kept_idem.push(e);
                assert(idem_view(kept_idem@) =~= kv.push(oi[i as int]));
            }
            i = i + 1;
        }
        proof {
            assert(oi.take(i as int) =~= oi);
        }
        self.idempotency = kept_idem;
    }
}

/// What a delivery token grants.
#[derive(Debug)]
pub enum TokenKind {
    /// A share token printed on a contact card: one append, until it
    /// expires; it may hold one reserved prekey.
    Share { mailbox: [u8; KEY_LEN], expires_at: u64, burned: bool, reserved_prekey: Option<Vec<u8>> },
    /// A contact capability: rate limited per minute; after rotation it
    /// stays valid until its grace time.
    Contact {
        mailbox: [u8; KEY_LEN],
        grace_until: Option<u64>,
        window_start: u64,
        window_count: usize,
    },
}

/// The content of a [`TokenKind`].
pub enum TokenView {
    Share { mailbox: Seq<u8>, expires_at: u64, burned: bool, reserved: Option<Seq<u8>> },
    Contact { mailbox: Seq<u8>, grace_until: Option<u64>, window_start: u64, window_count: usize },
}

impl View for TokenKind {
    type V = TokenView;

    open spec fn view(&self) -> TokenView {
        match self {
            TokenKind::Share { mailbox, expires_at, burned, reserved_prekey } => TokenView::Share {
                mailbox: mailbox@,
                expires_at: *expires_at,
                burned: *burned,
                reserved: match reserved_prekey {
                    Some(b) => Some(b@),
                    None => None,
                },
            },
            TokenKind::Contact { mailbox, grace_until, window_start, window_count } =>
                TokenView::Contact {
                mailbox: mailbox@,
                grace_until: *grace_until,
                window_start: *window_start,
                window_count: *window_count,
            },
        }
    }
}

/// What an append with a token leads to: the mailbox it may append to and
/// the token afterwards, or a refusal and the token afterwards.
pub open spec fn authorized(t: TokenView, now: u64) -> (Option<Seq<u8>>, TokenView) {
    match t {
        TokenView::Share { mailbox, expires_at, burned, reserved } => if !burned && now
            < expires_at {
            (Some(mailbox), t)
        } else {
            (None, t)
        },
        TokenView::Contact { mailbox, grace_until, window_start, window_count } => {
            if grace_until matches Some(g) && now >= g {
                (None, t)
            } else {
                let fresh = now >= window_start && now - window_start >= 60;
                let start = if fresh {
                    now
                } else {
                    window_start
                };
                let count = if fresh {
                    0
                } else {
                    window_count
                };
                if count >= RATE_PER_MIN {
                    (
                        None,
                        TokenView::Contact { mailbox, grace_until, window_start: start, window_count: count },
                    )
                } else {
                    (
                        Some(mailbox),
                        TokenView::Contact {
                            mailbox,
                            grace_until,
                            window_start: start,
                            window_count: (count + 1) as usize,
                        },
                    )
                }
            }
        },
    }
}

/// Checks a token for one append and counts it against the contact rate.
pub fn authorize_token(t: &mut TokenKind, now: u64) -> (r: Result<[u8; KEY_LEN], ServerError>)
    ensures
        match authorized(old(t)@, now).0 {
            Some(m) => r matches Ok(x) && x@ == m,
            None => r == Err::<[u8; KEY_LEN], ServerError>(ServerError::Denied),
        },
        final(t)@ == authorized(old(t)@, now).1,
{
    match t {
        TokenKind::Share { mailbox, expires_at, burned, .. } => {
            if !*burned && now < *expires_at {
                Ok(*mailbox)
            } else {
                Err(ServerError::Denied)
            }
        },
        TokenKind::Contact { mailbox, grace_until, window_start, window_count } => {
            if let Some(g) = grace_until {
                if now >= *g {
                    return Err(ServerError::Denied);
                }
            }
            if now >= *window_start && now - *window_start >= 60 {
                *window_start = now;
                *window_count = 0;
            }
            if *window_count >= RATE_PER_MIN {
                return Err(ServerError::Denied);
            }
            *window_count = *window_count + 1;
            Ok(*mailbox)
        },
    }
}

/// A contact capability never counts more than [`RATE_PER_MIN`] appends in
/// one window: starting within the bound, it stays within it, and a granted
/// append is always counted.
pub proof fn law_contact_rate(t: TokenView, now: u64)
    requires
        t matches TokenView::Contact { window_count, .. } && window_count <= RATE_PER_MIN,
    ensures
        authorized(t, now).1 matches TokenView::Contact { window_count, .. } && window_count
            <= RATE_PER_MIN,
        authorized(t, now).0 is Some ==> (authorized(t, now).1 matches TokenView::Contact {
            window_count: after,
            ..
        } && after >= 1),
{
}

/// A share token is spent by the append it allowed.
pub fn burn_if_share(t: &mut TokenKind)
    ensures
        match old(t)@ {
            TokenView::Share { mailbox, expires_at, reserved, .. } => final(t)@ == (TokenView::Share {
                mailbox,
                expires_at,
                burned: true,
                reserved,
            }),
            _ => final(t)@ == old(t)@,
        },
{
    if let TokenKind::Share { burned, .. } = t {
        *burned = true;
    }
}

// ---------------------------------------------------------------------------
// Replayed federation envelopes
// ---------------------------------------------------------------------------

/// The HPKE encapsulated keys recently ingested, with the mailbox number
/// each got: a replayed envelope is answered with the number again and not
/// appended twice. The window is emptied when it reaches
/// [`HPKE_ENC_WINDOW`] entries.
pub struct ReplayWindow {
    seen: KeyMap<u64>,
}

impl ReplayWindow {
    pub closed spec fn seen(self) -> Map<Seq<u8>, u64> {
        self.seen.map()
    }

    pub closed spec fn wf(self) -> bool {
        &&& self.seen.wf()
        &&& self.seen.values().len() <= HPKE_ENC_WINDOW
    }

    pub fn new() -> (w: ReplayWindow)
        ensures
            w.wf(),
            w.seen() == Map::<Seq<u8>, u64>::empty(),
    {
        ReplayWindow { seen: KeyMap::new() }
    }

    /// The number an encapsulated key was ingested under, if it is in the
    /// window.
    pub fn lookup(&self, enc: &[u8; KEY_LEN]) -> (r: Option<u64>)
        requires
            self.wf(),
        ensures
            r == (if self.seen().contains_key(enc@) {
                Some(self.seen()[enc@])
            } else {
                None
            }),
    {
        match self.seen.get(enc) {
            Some(s) => Some(*s),
            None => None,
        }
    }

    /// Records an ingested key; a full window is emptied first.
    pub fn record(&mut self, enc: [u8; KEY_LEN], seq: u64)
        requires
            old(self).wf(),
        ensures
            final(self).wf(),
            old(self).seen().dom().len() >= HPKE_ENC_WINDOW ==> final(self).seen() == Map::<
                Seq<u8>,
                u64,
            >::empty().insert(enc@, seq),
            old(self).seen().dom().len() < HPKE_ENC_WINDOW ==> final(self).seen() == old(
                self,
            ).seen().insert(enc@, seq),
    {
        proof {
            self.seen.lemma_values();
        }
        if self.seen.len() >= HPKE_ENC_WINDOW {
            self.seen = KeyMap::new();
        }
        let ghost before = self.seen;
        proof {
            before.lemma_values();
        }
        self.seen.insert(enc, seq);
        proof {
            self.seen.lemma_values();
            assert(before.values().len() < HPKE_ENC_WINDOW);
            assert(self.seen.map().dom() =~= before.map().dom().insert(enc@));
            vstd::set::axiom_set_insert_len(before.map().dom(), enc@);
        }
    }
}

/// The window never holds more than [`HPKE_ENC_WINDOW`] keys.
pub proof fn law_replay_window_bounded(w: ReplayWindow)
    requires
        w.wf(),
    ensures
        w.seen().dom().len() <= HPKE_ENC_WINDOW,
{
    w.seen.lemma_values();
}

// ---------------------------------------------------------------------------
// Home bindings seen from elsewhere
// ---------------------------------------------------------------------------

/// What a verified home binding for an identity does here.
#[derive(Clone, Copy, Debug, PartialEq, Eq, Structural)]
pub enum BindingAction {
    /// Not newer than the one on record: nothing changes.
    Keep,
    /// Newer, and for this server: record it.
    Record,
    /// Newer, and for another server: record it and disable the mailbox
    /// here (the identity moved).
    RecordAndDisable,
}

/// A binding only counts when its number is above the one on record; one
/// for another server then closes the mailbox here.
pub fn binding_action(stored_seq: u64, seq: u64, for_this_server: bool) -> (a: BindingAction)
    ensures
        seq <= stored_seq ==> a == BindingAction::Keep,
        seq > stored_seq && for_this_server ==> a == BindingAction::Record,
        seq > stored_seq && !for_this_server ==> a == BindingAction::RecordAndDisable,
{
    if seq <= stored_seq {
        BindingAction::Keep
    } else if for_this_server {
        BindingAction::Record
    } else {
        BindingAction::RecordAndDisable
    }
}

// ---------------------------------------------------------------------------
// The token table
// ---------------------------------------------------------------------------

/// The position of the last entry for token `t`.
pub open spec fn last_match(s: Seq<(Seq<u8>, TokenView)>, t: Seq<u8>) -> Option<int>
    decreases s.len(),
{
    if s.len() == 0 {
        None
    } else if s.last().0 == t {
        Some(s.len() - 1)
    } else {
        last_match(s.drop_last(), t)
    }
}

pub open spec fn token_mailbox(t: TokenView) -> Seq<u8> {
    match t {
        TokenView::Share { mailbox, .. } => mailbox,
        TokenView::Contact { mailbox, .. } => mailbox,
    }
}

/// The entries of `s` that do not belong to `owner`, in order.
pub open spec fn without_owner(s: Seq<(Seq<u8>, TokenView)>, owner: Seq<u8>) -> Seq<(Seq<u8>, TokenView)>
    decreases s.len(),
{
    if s.len() == 0 {
        seq![]
    } else if token_mailbox(s.last().1) == owner {
        without_owner(s.drop_last(), owner)
    } else {
        without_owner(s.drop_last(), owner).push(s.last())
    }
}

pub(crate) proof fn lemma_last_match(s: Seq<(Seq<u8>, TokenView)>, t: Seq<u8>)
    ensures
        last_match(s, t) matches Some(i) ==> 0 <= i < s.len() && s[i].0 == t && forall|j: int| i < j < s.len() ==> s[j].0 != t,
        last_match(s, t) is None ==> forall|j: int| 0 <= j < s.len() ==> s[j].0 != t,
    decreases s.len(),
{
    if s.len() > 0 {
        lemma_last_match(s.drop_last(), t);
        if s.last().0 != t {
            assert forall|j: int| 0 <= j < s.len() - 1 implies s[j] == s.drop_last()[j] by {}
        }
    }
}

/// Delivery tokens: share tokens printed on contact cards and contact
/// capabilities. When a token occurs more than once, its last entry
/// counts. Tokens are compared in constant time.
pub struct TokenTable {
    tokens: Vec<([u8; KEY_LEN], TokenKind)>,
}

impl TokenTable {
    pub closed spec fn entries(self) -> Seq<(Seq<u8>, TokenView)> {
        Seq::new(self.tokens@.len(), |i: int| (self.tokens@[i].0@, self.tokens@[i].1@))
    }

    pub fn new() -> (t: TokenTable)
        ensures
            t.entries() == Seq::<(Seq<u8>, TokenView)>::empty(),
    {
        let t = TokenTable { tokens: Vec::new() };
        assert(t.entries() =~= Seq::<(Seq<u8>, TokenView)>::empty());
        t
    }

    fn find(&self, want: &[u8; KEY_LEN]) -> (r: Option<usize>)
        ensures
            r matches Some(j) ==> last_match(self.entries(), want@) == Some(j as int),
            r is None ==> last_match(self.entries(), want@) is None,
    {
        let mut found: Option<usize> = None;
        let mut i: usize = 0;
        while i < self.tokens.len()
            invariant
                i <= self.tokens@.len(),
                found matches Some(j) ==> j < i && last_match(self.entries().take(i as int), want@) == Some(j as int),
                found is None ==> last_match(self.entries().take(i as int), want@) is None,
            decreases self.tokens@.len() - i,
        {
            assert(self.entries().take(i + 1).drop_last() =~= self.entries().take(i as int));
            if ct_eq_key(&self.tokens[i].0, want) {
                found = Some(i);
            }
            i = i + 1;
        }
        assert(self.entries().take(i as int) =~= self.entries());
        proof {
            lemma_last_match(self.entries(), want@);
        }
        found
    }

    /// Adds a share token for `owner`'s mailbox, valid until `expires_at`.
    pub fn add_share(&mut self, owner: [u8; KEY_LEN], token: [u8; KEY_LEN], expires_at: u64)
        ensures
            final(self).entries() == old(self).entries().push(
                (
                    token@,
                    TokenView::Share { mailbox: owner@, expires_at, burned: false, reserved: None },
                ),
            ),
    {
        let k = TokenKind::Share { mailbox: owner, expires_at, burned: false, reserved_prekey: None };
        self.tokens.push((token, k));
        assert(self.entries() =~= old(self).entries().push(
            (token@, TokenView::Share { mailbox: owner@, expires_at, burned: false, reserved: None }),
        ));
    }

    /// Adds `token` as a new contact capability for `owner`'s mailbox, its
    /// rate window starting at `now`.
    pub fn mint_contact(&mut self, owner: [u8; KEY_LEN], token: [u8; KEY_LEN], now: u64)
        ensures
            final(self).entries() == old(self).entries().push(
                (
                    token@,
                    TokenView::Contact {
                        mailbox: owner@,
                        grace_until: None,
                        window_start: now,
                        window_count: 0,
                    },
                ),
            ),
    {
        let k = TokenKind::Contact { mailbox: owner, grace_until: None, window_start: now, window_count: 0 };
        self.tokens.push((token, k));
        assert(self.entries() =~= old(self).entries().push(
            (
                token@,
                TokenView::Contact { mailbox: owner@, grace_until: None, window_start: now, window_count: 0 },
            ),
        ));
    }

    /// Replaces entry `i`.
    fn set_entry(&mut self, i: usize, token: [u8; KEY_LEN], kind: TokenKind)
        requires
            i < old(self).entries().len(),
        ensures
            final(self).entries() == old(self).entries().update(i as int, (token@, kind@)),
    {
        let ghost kv = kind@;
        self.tokens.set(i, (token, kind));
        assert(self.entries() =~= old(self).entries().update(i as int, (token@, kv)));
    }

    fn take_entry(&mut self, i: usize) -> (e: ([u8; KEY_LEN], TokenKind))
        requires
            i < old(self).entries().len(),
        ensures
            e.0@ == old(self).entries()[i as int].0,
            e.1@ == old(self).entries()[i as int].1,
            final(self).entries().len() == old(self).entries().len(),
            final(self).entries() == old(self).entries().update(i as int, final(self).entries()[i as int]),
    {
        let placeholder = ([0u8; KEY_LEN], TokenKind::Contact { mailbox: [0u8; KEY_LEN], grace_until: None, window_start: 0, window_count: 0 });
        let ghost before = self.entries();
        let mut e = placeholder;
        std::mem::swap(&mut e, &mut self.tokens[i]);
        assert(self.entries() =~= before.update(i as int, self.entries()[i as int]));
        e
    }

    /// Checks a token for one append and counts it: the last entry for the
    /// token decides, and a contact capability's rate window moves on.
    pub fn authorize(&mut self, token: &[u8; KEY_LEN], now: u64) -> (r: Result<[u8; KEY_LEN], ServerError>)
        ensures
            match last_match(old(self).entries(), token@) {
                None => r == Err::<[u8; KEY_LEN], ServerError>(ServerError::Denied) && final(self).entries() == old(self).entries(),
                Some(i) => {
                    let (m, after) = authorized(old(self).entries()[i].1, now);
                    &&& final(self).entries() == old(self).entries().update(i, (token@, after))
                    &&& match m {
                        Some(mb) => r matches Ok(x) && x@ == mb,
                        None => r == Err::<[u8; KEY_LEN], ServerError>(ServerError::Denied),
                    }
                },
            },
    {
        let i = match self.find(token) {
            Some(i) => i,
            None => {
                return Err(ServerError::Denied);
            },
        };
        proof {
            lemma_last_match(self.entries(), token@);
            assert(last_match(self.entries(), token@) == Some(i as int));
            assert(self.entries()[i as int].0 == token@);
        }
        let ghost before = self.entries();
        let (k, mut kind) = self.take_entry(i);
        assert(k@ == token@);
        let r = authorize_token(&mut kind, now);
        let ghost kv = kind@;
        self.set_entry(i, k, kind);
        assert(self.entries() =~= before.update(i as int, (token@, kv)));
        r
    }

    /// Spends a share token (its last entry); other tokens are untouched.
    pub fn burn(&mut self, token: &[u8; KEY_LEN])
        ensures
            match last_match(old(self).entries(), token@) {
                Some(i) => match old(self).entries()[i].1 {
                    TokenView::Share { mailbox, expires_at, reserved, .. } => final(self).entries()
                        == old(self).entries().update(
                        i,
                        (token@, TokenView::Share { mailbox, expires_at, burned: true, reserved }),
                    ),
                    _ => final(self).entries() == old(self).entries(),
                },
                None => final(self).entries() == old(self).entries(),
            },
    {
        if let Some(i) = self.find(token) {
            proof {
                lemma_last_match(self.entries(), token@);
                assert(last_match(self.entries(), token@) == Some(i as int));
                assert(self.entries()[i as int].0 == token@);
            }
            let (k, mut kind) = self.take_entry(i);
            assert(k@ == token@);
            burn_if_share(&mut kind);
            let ghost kv = kind@;
            self.set_entry(i, k, kind);
            proof {
                assert(self.entries() =~= old(self).entries().update(i as int, (token@, kv)));
                if !(old(self).entries()[i as int].1 is Share) {
                    assert(self.entries() =~= old(self).entries());
                }
            }
        }
    }

    /// Starts the grace period of `owner`'s old contact capability (its
    /// last entry, if it is a contact capability of that mailbox).
    pub fn start_grace(&mut self, owner: &[u8; KEY_LEN], old_token: &[u8; KEY_LEN], grace_until: u64)
        ensures
            match last_match(old(self).entries(), old_token@) {
                Some(i) => match old(self).entries()[i].1 {
                    TokenView::Contact { mailbox, window_start, window_count, .. } => if mailbox == owner@ {
                        final(self).entries() == old(self).entries().update(
                            i,
                            (
                                old_token@,
                                TokenView::Contact { mailbox, grace_until: Some(grace_until), window_start, window_count },
                            ),
                        )
                    } else {
                        final(self).entries() == old(self).entries()
                    },
                    _ => final(self).entries() == old(self).entries(),
                },
                None => final(self).entries() == old(self).entries(),
            },
    {
        if let Some(i) = self.find(old_token) {
            proof {
                lemma_last_match(self.entries(), old_token@);
                assert(last_match(self.entries(), old_token@) == Some(i as int));
                assert(self.entries()[i as int].0 == old_token@);
            }
            let (k, kind) = self.take_entry(i);
            assert(k@ == old_token@);
            let kind2 = match kind {
                TokenKind::Contact { mailbox, grace_until: g, window_start, window_count } => {
                    if same_key(&mailbox, owner) {
                        TokenKind::Contact { mailbox, grace_until: Some(grace_until), window_start, window_count }
                    } else {
                        TokenKind::Contact { mailbox, grace_until: g, window_start, window_count }
                    }
                },
                other => other,
            };
            let ghost kv = kind2@;
            self.set_entry(i, k, kind2);
            proof {
                assert(self.entries() =~= old(self).entries().update(i as int, (old_token@, kv)));
                if !(old(self).entries()[i as int].1 is Contact && token_mailbox(old(self).entries()[i as int].1) == owner@) {
                    assert(self.entries() =~= old(self).entries());
                }
            }
        }
    }

    /// Drops every token of `owner`'s mailbox.
    pub fn remove_owner(&mut self, owner: &[u8; KEY_LEN])
        ensures
            final(self).entries() == without_owner(old(self).entries(), owner@),
    {
        let ghost all = self.entries();
        let mut rest: Vec<([u8; KEY_LEN], TokenKind)> = Vec::new();
        std::mem::swap(&mut rest, &mut self.tokens);
        let mut kept: Vec<([u8; KEY_LEN], TokenKind)> = Vec::new();
        let n = rest.len();
        let mut i: usize = 0;
        let mut cur = rest;
        assert(self.entries() =~= Seq::<(Seq<u8>, TokenView)>::empty());
        while cur.len() > 0
            invariant
                n == all.len(),
                i + cur@.len() == n,
                forall|j: int| 0 <= j < cur@.len() ==> (#[trigger] cur@[j]).0@ == all[i + j].0 && cur@[j].1@ == all[i + j].1,
                Seq::new(kept@.len(), |j: int| (kept@[j].0@, kept@[j].1@)) == without_owner(all.take(i as int), owner@),
            decreases cur@.len(),
        {
            let ghost before_cur = cur@;
            assert(before_cur[0].0@ == all[i + 0].0);
            let e = cur.remove(0);
            assert forall|j: int| 0 <= j < cur@.len() implies (#[trigger] cur@[j]).0@ == all[i + 1 + j].0 && cur@[j].1@ == all[i + 1 + j].1 by {
                assert(cur@[j] == before_cur[j + 1]);
            }
            assert(all.take(i + 1).drop_last() =~= all.take(i as int));
            assert((e.0@, e.1@) == all[i as int]);
            let mine = match &e.1 {
                TokenKind::Share { mailbox, .. } => same_key(mailbox, owner),
                TokenKind::Contact { mailbox, .. } => same_key(mailbox, owner),
            };
            let ghost kv = Seq::new(kept@.len(), |j: int| (kept@[j].0@, kept@[j].1@));
            if !mine {
                let ghost ev = (e.0@, e.1@);
                kept.push(e);
                assert(Seq::new(kept@.len(), |j: int| (kept@[j].0@, kept@[j].1@)) =~= kv.push(ev));
            }
            i = i + 1;
        }
        assert(all.take(n as int) =~= all);
        self.tokens = kept;
        assert(self.entries() =~= without_owner(all, owner@));
    }
}

fn same_key(a: &[u8; KEY_LEN], b: &[u8; KEY_LEN]) -> (r: bool)
    ensures
        r == (a@ == b@),
{
    crate::keymap::same_id(a, b)
}

// ---------------------------------------------------------------------------
// One-time prekeys
// ---------------------------------------------------------------------------

pub open spec fn blobs_view(q: Seq<Vec<u8>>) -> Seq<Seq<u8>> {
    Seq::new(q.len(), |i: int| q[i]@)
}

/// The one-time prekeys each mailbox owner published, oldest first.
pub struct PrekeyStock {
    queues: KeyMap<Vec<Vec<u8>>>,
}

impl PrekeyStock {
    pub closed spec fn wf(self) -> bool {
        self.queues.wf()
    }

    /// The prekeys waiting for `owner`, oldest first.
    pub closed spec fn queue(self, owner: Seq<u8>) -> Seq<Seq<u8>> {
        if self.queues.map().contains_key(owner) {
            blobs_view(self.queues.map()[owner]@)
        } else {
            seq![]
        }
    }

    pub fn new() -> (s: PrekeyStock)
        ensures
            s.wf(),
            forall|o: Seq<u8>| #[trigger] s.queue(o) == Seq::<Seq<u8>>::empty(),
    {
        PrekeyStock { queues: KeyMap::new() }
    }

    /// Adds a prekey at the back of `owner`'s queue.
    pub fn publish(&mut self, owner: [u8; KEY_LEN], blob: Vec<u8>)
        requires
            old(self).wf(),
        ensures
            final(self).wf(),
            final(self).queue(owner@) == old(self).queue(owner@).push(blob@),
            forall|o: Seq<u8>| o != owner@ ==> #[trigger] final(self).queue(o) == old(self).queue(o),
    {
        let ghost bv = blob@;
        let mut q = match self.queues.remove(&owner) {
            Some(q) => q,
            None => Vec::new(),
        };
        let ghost before = q@;
        q.push(blob);
        assert(blobs_view(q@) =~= blobs_view(before).push(bv));
        self.queues.insert(owner, q);
        proof {
            if !old(self).queues.map().contains_key(owner@) {
                assert(blobs_view(before) =~= Seq::<Seq<u8>>::empty());
            }
        }
    }

    /// Takes the oldest prekey of `owner`, if any.
    pub fn take(&mut self, owner: &[u8; KEY_LEN]) -> (r: Option<Vec<u8>>)
        requires
            old(self).wf(),
        ensures
            final(self).wf(),
            old(self).queue(owner@).len() == 0 ==> r is None && forall|o: Seq<u8>| #[trigger] final(self).queue(o) == old(self).queue(o),
            old(self).queue(owner@).len() > 0 ==> (r matches Some(b) && b@ == old(self).queue(owner@)[0])
                && final(self).queue(owner@) == old(self).queue(owner@).drop_first(),
            forall|o: Seq<u8>| o != owner@ ==> #[trigger] final(self).queue(o) == old(self).queue(o),
    {
        let mut q = match self.queues.remove(owner) {
            Some(q) => q,
            None => {
                return None;
            },
        };
        if q.len() == 0 {
            self.queues.insert(*owner, q);
            proof {
                assert(self.queues.map() =~= old(self).queues.map());
            }
            return None;
        }
        let ghost before = q@;
        let b = q.remove(0);
        assert(blobs_view(q@) =~= blobs_view(before).drop_first());
        self.queues.insert(*owner, q);
        Some(b)
    }

    /// Drops every prekey of `owner`.
    pub fn drop_owner(&mut self, owner: &[u8; KEY_LEN])
        requires
            old(self).wf(),
        ensures
            final(self).wf(),
            final(self).queue(owner@) == Seq::<Seq<u8>>::empty(),
            forall|o: Seq<u8>| o != owner@ ==> #[trigger] final(self).queue(o) == old(self).queue(o),
    {
        self.queues.remove(owner);
    }
}

/// Whether a share token may fetch a prekey now.
pub open spec fn share_usable(t: TokenView, now: u64) -> bool {
    t matches TokenView::Share { burned, expires_at, .. } && !burned && now < expires_at
}

impl TokenTable {
    /// A share token's prekey: the one it reserved before, or the oldest of
    /// its owner's stock, which it then reserves. Fetching does not spend
    /// the token.
    pub fn fetch_prekey(&mut self, stock: &mut PrekeyStock, token: &[u8; KEY_LEN], now: u64) -> (r: Result<
        Vec<u8>,
        ServerError,
    >)
        requires
            old(stock).wf(),
        ensures
            final(stock).wf(),
            match last_match(old(self).entries(), token@) {
                Some(i) if share_usable(old(self).entries()[i].1, now) => match old(self).entries()[i].1 {
                    TokenView::Share { mailbox, expires_at, burned, reserved } => match reserved {
                        Some(b) => r matches Ok(x) && x@ == b && final(self).entries() == old(self).entries()
                            && final(stock).queue(mailbox) == old(stock).queue(mailbox),
                        None => if old(stock).queue(mailbox).len() == 0 {
                            r == Err::<Vec<u8>, ServerError>(ServerError::Denied) && final(self).entries() == old(self).entries()
                                && final(stock).queue(mailbox) == old(stock).queue(mailbox)
                        } else {
                            let b = old(stock).queue(mailbox)[0];
                            &&& r matches Ok(x) && x@ == b
                            &&& final(stock).queue(mailbox) == old(stock).queue(mailbox).drop_first()
                            &&& final(self).entries() == old(self).entries().update(
                                i,
                                (token@, TokenView::Share { mailbox, expires_at, burned, reserved: Some(b) }),
                            )
                        },
                    },
                    _ => false,
                },
                _ => r == Err::<Vec<u8>, ServerError>(ServerError::Denied) && final(self).entries() == old(self).entries()
                    && forall|o: Seq<u8>| #[trigger] final(stock).queue(o) == old(stock).queue(o),
            },
    {
        let i = match self.find(token) {
            Some(i) => i,
            None => {
                return Err(ServerError::Denied);
            },
        };
        proof {
            lemma_last_match(self.entries(), token@);
            assert(self.entries()[i as int].0 == token@);
        }
        let (k, kind) = self.take_entry(i);
        let ghost kv = kind@;
        match kind {
            TokenKind::Share { mailbox, expires_at, burned, reserved_prekey } => {
                if burned || now >= expires_at {
                    self.set_entry(i, k, TokenKind::Share { mailbox, expires_at, burned, reserved_prekey });
                    assert(self.entries() =~= old(self).entries());
                    return Err(ServerError::Denied);
                }
                match reserved_prekey {
                    Some(b) => {
                        let out = crate::ids::array_to_vec(b.as_slice());
                        self.set_entry(i, k, TokenKind::Share { mailbox, expires_at, burned, reserved_prekey: Some(b) });
                        assert(self.entries() =~= old(self).entries());
                        Ok(out)
                    },
                    None => match stock.take(&mailbox) {
                        Some(blob) => {
                            let out = crate::ids::array_to_vec(blob.as_slice());
                            let ghost bv = blob@;
                            self.set_entry(i, k, TokenKind::Share { mailbox, expires_at, burned, reserved_prekey: Some(blob) });
                            assert(self.entries() =~= old(self).entries().update(
                                i as int,
                                (token@, TokenView::Share { mailbox: mailbox@, expires_at, burned, reserved: Some(bv) }),
                            ));
                            Ok(out)
                        },
                        None => {
                            self.set_entry(i, k, TokenKind::Share { mailbox, expires_at, burned, reserved_prekey: None });
                            assert(self.entries() =~= old(self).entries());
                            Err(ServerError::Denied)
                        },
                    },
                }
            },
            other => {
                self.set_entry(i, k, other);
                assert(self.entries() =~= old(self).entries());
                Err(ServerError::Denied)
            },
        }
    }
}

} // verus!
