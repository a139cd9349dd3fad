//! A home server's state: the registered mailboxes, the discovery
//! directory, group memberships, delivery tokens, published prekeys and the
//! window of recently ingested federation envelopes. Signatures, owner
//! authentication and HPKE are checked by the caller; their outcome comes
//! in with each request.

use vstd::prelude::*;
use crate::ids::KEY_LEN;
use crate::keymap::{KeyMap, same_id};
use crate::mailbox::TtlBucket;
use crate::federation::{
    Enqueue, OutboundRow, LinkCounters, PeerWindow, PumpStats, Sent, Due, due_of, row_due, settle, accept_counter,
    take_counter, reset_link, window_allows, window_count, Incoming, PEER_RATE_PER_SEC, after_send, next_backoff,
};
use crate::server::{
    Limits, Mailbox, ServerError, TokenTable, PrekeyStock, ReplayWindow, BindingAction, binding_action,
    TokenView, last_match, authorized, without_owner, CONTACT_GRACE_SECS, StoredEnvelope,
    EnvelopeView, idem_lookup, collected, idem_after, expiry_of, FETCH_LIMIT_MAX, visible, envs_view,
    after_ack, share_usable, lemma_last_match, HPKE_ENC_WINDOW, token_mailbox,
};

verus! {

/// What the directory keeps for an identity: its keys, its current home
/// binding (in its wire form, with the number and server it names) and
/// its revocation statement, once one came.
#[derive(Clone, Debug, PartialEq, Eq)]
pub struct DiscoveryRow {
    pub identity_public_key: [u8; KEY_LEN],
    pub revocation_public_key: [u8; KEY_LEN],
    pub binding: Vec<u8>,
    pub binding_seq: u64,
    pub binding_server: [u8; KEY_LEN],
    pub revocation: Option<Vec<u8>>,
}

/// A directory row as contracts speak of it.
pub struct RowView {
    pub identity_public_key: Seq<u8>,
    pub revocation_public_key: Seq<u8>,
    pub binding: Seq<u8>,
    pub binding_seq: u64,
    pub binding_server: Seq<u8>,
    pub revocation: Option<Seq<u8>>,
}

impl View for DiscoveryRow {
    type V = RowView;

    open spec fn view(&self) -> RowView {
        RowView {
            identity_public_key: self.identity_public_key@,
            revocation_public_key: self.revocation_public_key@,
            binding: self.binding@,
            binding_seq: self.binding_seq,
            binding_server: self.binding_server@,
            revocation: match self.revocation {
                Some(v) => Some(v@),
                None => None,
            },
        }
    }
}

/// A copy of `v` with the same contents.
fn copy_bytes(v: &Vec<u8>) -> (r: Vec<u8>)
    ensures
        r@ == v@,
{
    let mut out: Vec<u8> = Vec::new();
    let mut i: usize = 0;
    while i < v.len()
        invariant
            i <= v@.len(),
            out@ == v@.subrange(0, i as int),
        decreases v@.len() - i,
    {
        out.push(v[i]);
        i = i + 1;
    }
    assert(out@ =~= v@);
    out
}

/// A copy of a directory row.
fn copy_row(row: &DiscoveryRow) -> (r: DiscoveryRow)
    ensures
        r@ == row@,
{
    DiscoveryRow {
        identity_public_key: row.identity_public_key,
        revocation_public_key: row.revocation_public_key,
        binding: copy_bytes(&row.binding),
        binding_seq: row.binding_seq,
        binding_server: row.binding_server,
        revocation: match &row.revocation {
            Some(v) => Some(copy_bytes(v)),
            None => None,
        },
    }
}

/// An outbound row as contracts speak of it: destination, envelope,
/// enqueued at, next attempt, retry delay.
pub type OutboundView = (Seq<u8>, Seq<u8>, u64, u64, u64);

pub open spec fn outbound_view(r: &OutboundRow) -> OutboundView {
    (r.dest@, r.outer@, r.enqueued_at, r.next_attempt, r.backoff_secs)
}

pub open spec fn views_of(s: Seq<OutboundRow>) -> Seq<OutboundView> {
    Seq::new(s.len(), |i: int| outbound_view(&s[i]))
}

proof fn lemma_views_remove(s: Seq<OutboundRow>, i: int)
    requires
        0 <= i < s.len(),
    ensures
        views_of(s.remove(i)) == views_of(s).remove(i),
{
    assert(views_of(s.remove(i)) =~= views_of(s).remove(i));
}

proof fn lemma_views_insert(s: Seq<OutboundRow>, i: int, r: OutboundRow)
    requires
        0 <= i <= s.len(),
    ensures
        views_of(s.insert(i, r)) == views_of(s).insert(i, outbound_view(&r)),
{
    assert(views_of(s.insert(i, r)) =~= views_of(s).insert(i, outbound_view(&r)));
}

/// What a home keeps of a pinned peer: the signing key of its bundle, the
/// frame counters and greeting of the link, the per-second envelope count
/// and the encapsulated keys it handed over recently.
pub struct PeerState {
    pub sign_pk: [u8; KEY_LEN],
    pub refused: bool,
    pub link: LinkCounters,
    pub hello_done: bool,
    pub window: PeerWindow,
    pub seen: ReplayWindow,
}

impl PeerState {
    /// A freshly pinned peer.
    pub fn new(sign_pk: [u8; KEY_LEN]) -> (p: PeerState)
        ensures
            p.sign_pk == sign_pk,
            !p.refused,
            p.link == (LinkCounters { last_rx: 0, next_tx: 1 }),
            !p.hello_done,
            p.window == (PeerWindow { window_sec: 0, window_ok: 0 }),
            p.seen.wf(),
            p.seen.seen() == Map::<Seq<u8>, u64>::empty(),
    {
        PeerState {
            sign_pk,
            refused: false,
            link: LinkCounters { last_rx: 0, next_tx: 1 },
            hello_done: false,
            window: PeerWindow { window_sec: 0, window_ok: 0 },
            seen: ReplayWindow::new(),
        }
    }
}

/// A home binding as the server reads it: its wire form, its number and
/// the server it names.
#[derive(Clone, Debug, PartialEq, Eq)]
pub struct BindingFacts {
    pub bytes: Vec<u8>,
    pub seq: u64,
    pub server_id: [u8; KEY_LEN],
}

/// A home server.
pub struct HomeServer {
    now: u64,
    server_id: [u8; KEY_LEN],
    limits: Limits,
    mailboxes: KeyMap<Mailbox>,
    directory: KeyMap<DiscoveryRow>,
    memberships: KeyMap<Vec<[u8; KEY_LEN]>>,
    tokens: TokenTable,
    prekeys: PrekeyStock,
    seen: ReplayWindow,
    outbound: Vec<OutboundRow>,
    peers: KeyMap<PeerState>,
}

impl HomeServer {
    pub closed spec fn clock(self) -> u64 {
        self.now
    }

    pub closed spec fn id(self) -> Seq<u8> {
        self.server_id@
    }

    pub closed spec fn limits(self) -> Limits {
        self.limits
    }

    pub closed spec fn mailboxes(self) -> Map<Seq<u8>, Mailbox> {
        self.mailboxes.map()
    }

    pub closed spec fn directory(self) -> Map<Seq<u8>, RowView> {
        self.directory.map().map_values(|r: DiscoveryRow| r@)
    }

    pub closed spec fn memberships(self) -> Map<Seq<u8>, Vec<[u8; KEY_LEN]>> {
        self.memberships.map()
    }

    pub closed spec fn tokens(self) -> Seq<(Seq<u8>, TokenView)> {
        self.tokens.entries()
    }

    pub closed spec fn prekeys(self) -> PrekeyStock {
        self.prekeys
    }

    pub closed spec fn seen(self) -> Map<Seq<u8>, u64> {
        self.seen.seen()
    }

    /// The envelopes queued for other homes, oldest first.
    pub closed spec fn outbound(self) -> Seq<OutboundView> {
        views_of(self.outbound@)
    }

    pub closed spec fn wf(self) -> bool {
        &&& self.mailboxes.wf()
        &&& self.directory.wf()
        &&& self.memberships.wf()
        &&& self.prekeys.wf()
        &&& self.seen.wf()
        &&& forall|k: Seq<u8>| #[trigger] self.mailboxes.map().contains_key(k) ==> self.mailboxes.map()[k].wf()
        &&& self.peers.wf()
        &&& forall|k: Seq<u8>| #[trigger] self.peers.map().contains_key(k) ==> self.peers.map()[k].seen.wf()
    }

    /// The pinned peer homes, by server id.
    pub closed spec fn peers(self) -> Map<Seq<u8>, PeerState> {
        self.peers.map()
    }

    /// A server with nothing registered.
    pub fn new(server_id: [u8; KEY_LEN], limits: Limits, now: u64) -> (h: HomeServer)
        ensures
            h.wf(),
            h.clock() == now,
            h.id() == server_id@,
            h.limits() == limits,
            h.mailboxes() == Map::<Seq<u8>, Mailbox>::empty(),
            h.directory() == Map::<Seq<u8>, RowView>::empty(),
            h.memberships() == Map::<Seq<u8>, Vec<[u8; KEY_LEN]>>::empty(),
            h.tokens() == Seq::<(Seq<u8>, TokenView)>::empty(),
            h.seen() == Map::<Seq<u8>, u64>::empty(),
            h.outbound() == Seq::<OutboundView>::empty(),
            h.peers() == Map::<Seq<u8>, PeerState>::empty(),
    {
        let h = HomeServer {
            now,
            server_id,
            limits,
            mailboxes: KeyMap::new(),
            directory: KeyMap::new(),
            memberships: KeyMap::new(),
            tokens: TokenTable::new(),
            prekeys: PrekeyStock::new(),
            seen: ReplayWindow::new(),
            outbound: Vec::new(),
            peers: KeyMap::new(),
        };
        assert(h.directory() =~= Map::<Seq<u8>, RowView>::empty());
        assert(h.outbound() =~= Seq::<OutboundView>::empty());
        h
    }

    pub fn now(&self) -> (r: u64)
        ensures
            r == self.clock(),
    {
        self.now
    }

    /// This home's server id.
    pub fn server_id(&self) -> (r: [u8; KEY_LEN])
        ensures
            r@ == self.id(),
    {
        self.server_id
    }

    /// Sets the server's clock.
    pub fn set_now(&mut self, now: u64)
        ensures
            final(self).clock() == now,
            final(self).id() == old(self).id(),
            final(self).limits() == old(self).limits(),
            final(self).mailboxes() == old(self).mailboxes(),
            final(self).directory() == old(self).directory(),
            final(self).memberships() == old(self).memberships(),
            final(self).tokens() == old(self).tokens(),
            final(self).prekeys() == old(self).prekeys(),
            final(self).seen() == old(self).seen(),
            final(self).outbound() == old(self).outbound(),
            final(self).peers() == old(self).peers(),
            old(self).wf() ==> final(self).wf(),
    {
        self.now = now;
    }

    /// Whether `owner` has a mailbox here that is not disabled.
    pub open spec fn open_mailbox(self, owner: Seq<u8>) -> bool {
        self.mailboxes().contains_key(owner) && !self.mailboxes()[owner].disabled()
    }

    /// Opens a mailbox for an identity with the key that authenticates its
    /// owner; an identity registers once.
    pub fn register(&mut self, identity_id: [u8; KEY_LEN], owner_pk: [u8; KEY_LEN]) -> (r: Result<(), ServerError>)
        requires
            old(self).wf(),
        ensures
            final(self).wf(),
            old(self).mailboxes().contains_key(identity_id@) ==> r == Err::<(), ServerError>(ServerError::AlreadyRegistered)
                && final(self).mailboxes() == old(self).mailboxes(),
            !old(self).mailboxes().contains_key(identity_id@) ==> r is Ok && final(self).mailboxes().dom()
                == old(self).mailboxes().dom().insert(identity_id@)
                && (forall|k: Seq<u8>| k != identity_id@ && #[trigger] old(self).mailboxes().contains_key(k)
                    ==> final(self).mailboxes()[k] == old(self).mailboxes()[k])
                && final(self).mailboxes()[identity_id@].rows() == Seq::<EnvelopeView>::empty()
                && final(self).mailboxes()[identity_id@].next_seq() == 1
                && !final(self).mailboxes()[identity_id@].disabled()
                && final(self).mailboxes()[identity_id@].owner() == owner_pk@,
            final(self).directory() == old(self).directory(),
            final(self).tokens() == old(self).tokens(),
            final(self).clock() == old(self).clock(),
    {
        if self.mailboxes.contains(&identity_id) {
            return Err(ServerError::AlreadyRegistered);
        }
        self.mailboxes.insert(identity_id, Mailbox::new(owner_pk));
        proof {
            assert forall|k: Seq<u8>| #[trigger] self.mailboxes.map().contains_key(k) implies self.mailboxes.map()[k].wf() by {
                if k != identity_id@ {
                    assert(old(self).mailboxes.map().contains_key(k));
                }
            }
            assert(self.mailboxes().dom() =~= old(self).mailboxes().dom().insert(identity_id@));
        }
        Ok(())
    }

    fn require_mailbox(&self, owner: &[u8; KEY_LEN]) -> (r: Result<(), ServerError>)
        requires
            self.wf(),
        ensures
            r is Ok <==> self.open_mailbox(owner@),
            r is Err ==> r == Err::<(), ServerError>(ServerError::Denied),
    {
        match self.mailboxes.get(owner) {
            Some(m) => {
                proof {
                    assert(self.mailboxes.map()[owner@].wf());
                }
                if m.is_disabled() {
                    Err(ServerError::Denied)
                } else {
                    Ok(())
                }
            },
            None => Err(ServerError::Denied),
        }
    }

    /// Whether `owner`'s mailbox was disabled.
    pub fn mailbox_disabled(&self, owner: &[u8; KEY_LEN]) -> (r: bool)
        requires
            self.wf(),
        ensures
            r == (self.mailboxes().contains_key(owner@) && self.mailboxes()[owner@].disabled()),
    {
        match self.mailboxes.get(owner) {
            Some(m) => m.is_disabled(),
            None => false,
        }
    }

    /// The key that authenticates `owner`'s mailbox, for checking owner
    /// requests.
    pub fn owner_pk(&self, owner: &[u8; KEY_LEN]) -> (r: Option<[u8; KEY_LEN]>)
        requires
            self.wf(),
        ensures
            self.mailboxes().contains_key(owner@) ==> (r matches Some(k) && k@ == self.mailboxes()[owner@].owner()),
            !self.mailboxes().contains_key(owner@) ==> r is None,
    {
        match self.mailboxes.get(owner) {
            Some(m) => Some(m.owner_pk()),
            None => None,
        }
    }

    /// Closes `owner`'s mailbox for good: its rows, its prekeys and its
    /// tokens go.
    fn disable_mailbox(&mut self, owner: &[u8; KEY_LEN])
        requires
            old(self).wf(),
        ensures
            final(self).wf(),
            final(self).mailboxes().dom() == old(self).mailboxes().dom(),
            forall|k: Seq<u8>| k != owner@ && #[trigger] old(self).mailboxes().contains_key(k) ==> final(self).mailboxes()[k]
                == old(self).mailboxes()[k],
            old(self).mailboxes().contains_key(owner@) ==> final(self).mailboxes()[owner@].disabled()
                && final(self).mailboxes()[owner@].rows() == Seq::<EnvelopeView>::empty()
                && final(self).mailboxes()[owner@].owner() == old(self).mailboxes()[owner@].owner(),
            final(self).tokens() == without_owner(old(self).tokens(), owner@),
            final(self).prekeys().queue(owner@) == Seq::<Seq<u8>>::empty(),
            forall|o: Seq<u8>| o != owner@ ==> #[trigger] final(self).prekeys().queue(o) == old(self).prekeys().queue(o),
            final(self).directory() == old(self).directory(),
            final(self).memberships() == old(self).memberships(),
            final(self).seen() == old(self).seen(),
            final(self).clock() == old(self).clock(),
            final(self).id() == old(self).id(),
            final(self).limits() == old(self).limits(),
    {
        if self.mailboxes.contains(owner) {
            proof {
                assert(self.mailboxes.map()[owner@].wf());
            }
            let ghost before = self.mailboxes.map();
            let mut m = match self.mailboxes.remove(owner) {
                Some(m) => m,
                None => {
                    proof {
                        assert(false);
                    }
                    Mailbox::new(*owner)
                },
            };
            m.disable();
            self.mailboxes.insert(*owner, m);
            proof {
                assert forall|k: Seq<u8>| #[trigger] self.mailboxes.map().contains_key(k) implies self.mailboxes.map()[k].wf() by {
                    if k != owner@ {
                        assert(before.contains_key(k));
                    }
                }
                assert(self.mailboxes().dom() =~= before.dom());
            }
        }
        self.prekeys.drop_owner(owner);
        self.tokens.remove_owner(owner);
    }

    /// A new contact capability for an open mailbox; refused with
    /// [`ServerError::Randomness`], changing nothing, when the operating
    /// system gives no random bytes.
    pub fn mint_contact_capability(&mut self, owner: &[u8; KEY_LEN]) -> (r: Result<[u8; KEY_LEN], ServerError>)
        requires
            old(self).wf(),
        ensures
            final(self).wf(),
            !old(self).open_mailbox(owner@) ==> r == Err::<[u8; KEY_LEN], ServerError>(ServerError::Denied)
                && final(self).tokens() == old(self).tokens(),
            old(self).open_mailbox(owner@) ==> match r {
                Ok(t) => final(self).tokens() == old(self).tokens().push(
                    (
                        t@,
                        TokenView::Contact { mailbox: owner@, grace_until: None, window_start: old(self).clock(), window_count: 0 },
                    ),
                ),
                Err(e) => e == ServerError::Randomness && final(self).tokens() == old(self).tokens(),
            },
            final(self).mailboxes() == old(self).mailboxes(),
            final(self).directory() == old(self).directory(),
            final(self).clock() == old(self).clock(),
    {
        self.require_mailbox(owner)?;
        let token = match crate::mailbox::random_token() {
            Some(t) => t,
            None => {
                return Err(ServerError::Randomness);
            },
        };
        let now = self.now;
        self.tokens.mint_contact(*owner, token, now);
        Ok(token)
    }

    /// A new contact capability; with `confirm`, the old one stays valid
    /// only [`CONTACT_GRACE_SECS`] longer.
    pub fn rotate_contact(&mut self, owner: &[u8; KEY_LEN], old_token: &[u8; KEY_LEN], confirm: bool) -> (r:
        Result<[u8; KEY_LEN], ServerError>)
        requires
            old(self).wf(),
            old(self).clock() + CONTACT_GRACE_SECS <= u64::MAX,
        ensures
            final(self).wf(),
            !old(self).open_mailbox(owner@) ==> r == Err::<[u8; KEY_LEN], ServerError>(ServerError::Denied)
                && final(self).tokens() == old(self).tokens(),
            old(self).open_mailbox(owner@) && r is Err ==> r == Err::<[u8; KEY_LEN], ServerError>(
                ServerError::Randomness,
            ) && final(self).tokens() == old(self).tokens(),
            old(self).open_mailbox(owner@) ==> (r matches Ok(t) ==> {
                let minted = old(self).tokens().push(
                    (
                        t@,
                        TokenView::Contact { mailbox: owner@, grace_until: None, window_start: old(self).clock(), window_count: 0 },
                    ),
                );
                &&& !confirm ==> final(self).tokens() == minted
                &&& confirm ==> match last_match(minted, old_token@) {
                    Some(i) => match minted[i].1 {
                        TokenView::Contact { mailbox, window_start, window_count, .. } => if mailbox == owner@ {
                            final(self).tokens() == minted.update(
                                i,
                                (
                                    old_token@,
                                    TokenView::Contact {
                                        mailbox,
                                        grace_until: Some((old(self).clock() + CONTACT_GRACE_SECS) as u64),
                                        window_start,
                                        window_count,
                                    },
                                ),
                            )
                        } else {
                            final(self).tokens() == minted
                        },
                        _ => final(self).tokens() == minted,
                    },
                    None => final(self).tokens() == minted,
                }
            }),
            final(self).mailboxes() == old(self).mailboxes(),
            final(self).clock() == old(self).clock(),
    {
        let new = self.mint_contact_capability(owner)?;
        if confirm {
            let grace = self.now + CONTACT_GRACE_SECS;
            self.tokens.start_grace(owner, old_token, grace);
        }
        Ok(new)
    }

    /// An owner publishes a one-time prekey.
    pub fn publish_prekey(&mut self, owner: &[u8; KEY_LEN], blob: Vec<u8>) -> (r: Result<(), ServerError>)
        requires
            old(self).wf(),
        ensures
            final(self).wf(),
            !old(self).open_mailbox(owner@) ==> r == Err::<(), ServerError>(ServerError::Denied)
                && final(self).prekeys().queue(owner@) == old(self).prekeys().queue(owner@),
            old(self).open_mailbox(owner@) ==> r is Ok && final(self).prekeys().queue(owner@) == old(self).prekeys().queue(
                owner@,
            ).push(blob@),
            forall|o: Seq<u8>| o != owner@ ==> #[trigger] final(self).prekeys().queue(o) == old(self).prekeys().queue(o),
            final(self).mailboxes() == old(self).mailboxes(),
            final(self).tokens() == old(self).tokens(),
    {
        self.require_mailbox(owner)?;
        self.prekeys.publish(*owner, blob);
        Ok(())
    }

    /// A prekey for the holder of a share token; see
    /// [`TokenTable::fetch_prekey`].
    pub fn fetch_prekey(&mut self, token: &[u8; KEY_LEN]) -> (r: Result<Vec<u8>, ServerError>)
        requires
            old(self).wf(),
        ensures
            final(self).wf(),
            final(self).mailboxes() == old(self).mailboxes(),
            final(self).clock() == old(self).clock(),
            match last_match(old(self).tokens(), token@) {
                Some(i) if share_usable(old(self).tokens()[i].1, old(self).clock()) => match old(self).tokens()[i].1 {
                    TokenView::Share { mailbox, expires_at, burned, reserved } => match reserved {
                        Some(b) => r matches Ok(x) && x@ == b && final(self).tokens() == old(self).tokens()
                            && final(self).prekeys().queue(mailbox) == old(self).prekeys().queue(mailbox),
                        None => if old(self).prekeys().queue(mailbox).len() == 0 {
                            r == Err::<Vec<u8>, ServerError>(ServerError::Denied) && final(self).tokens() == old(self).tokens()
                                && final(self).prekeys().queue(mailbox) == old(self).prekeys().queue(mailbox)
                        } else {
                            let b = old(self).prekeys().queue(mailbox)[0];
                            &&& r matches Ok(x) && x@ == b
                            &&& final(self).prekeys().queue(mailbox) == old(self).prekeys().queue(mailbox).drop_first()
                            &&& final(self).tokens() == old(self).tokens().update(
                                i,
                                (token@, TokenView::Share { mailbox, expires_at, burned, reserved: Some(b) }),
                            )
                        },
                    },
                    _ => false,
                },
                _ => r == Err::<Vec<u8>, ServerError>(ServerError::Denied) && final(self).tokens() == old(self).tokens()
                    && forall|o: Seq<u8>| #[trigger] final(self).prekeys().queue(o) == old(self).prekeys().queue(o),
            },
    {
        let now = self.now;
        self.tokens.fetch_prekey(&mut self.prekeys, token, now)
    }

    /// Records that an identity belongs to a hosted group.
    pub fn note_group_membership(&mut self, identity_id: &[u8; KEY_LEN], group_id: [u8; KEY_LEN])
        requires
            old(self).wf(),
        ensures
            final(self).wf(),
            final(self).memberships().contains_key(identity_id@),
            ({
                let before = if old(self).memberships().contains_key(identity_id@) {
                    old(self).memberships()[identity_id@]@
                } else {
                    Seq::<[u8; KEY_LEN]>::empty()
                };
                let after = final(self).memberships()[identity_id@]@;
                &&& before.contains(group_id) ==> after == before
                &&& !before.contains(group_id) ==> after == before.push(group_id)
            }),
            forall|k: Seq<u8>| k != identity_id@ ==> #[trigger] final(self).memberships().contains_key(k)
                == old(self).memberships().contains_key(k),
            forall|k: Seq<u8>| k != identity_id@ && #[trigger] old(self).memberships().contains_key(k)
                ==> final(self).memberships()[k] == old(self).memberships()[k],
            final(self).mailboxes() == old(self).mailboxes(),
            final(self).tokens() == old(self).tokens(),
    {
        let mut list = match self.memberships.remove(identity_id) {
            Some(l) => l,
            None => Vec::new(),
        };
        let mut i: usize = 0;
        let mut present = false;
        while i < list.len()
            invariant
                i <= list@.len(),
                present == exists|j: int| 0 <= j < i && list@[j] == group_id,
            decreases list@.len() - i,
        {
            if same_id(&list[i], &group_id) {
                assert(list@[i as int]@ == group_id@);
                assert(list@[i as int] == group_id);
                present = true;
            }
            i = i + 1;
        }
        if !present {
            list.push(group_id);
        }
        self.memberships.insert(*identity_id, list);
    }
}

/// The lifetime of an introduction (a share token, a group invite):
/// thirty minutes.
pub const INTRO_TTL_30_MIN: u64 = 1800;

/// The share-token lifetime of a card registered without one.
pub const SHARE_TTL_DEFAULT: u64 = INTRO_TTL_30_MIN;

/// Whether an introduction may live `ttl` seconds: only the thirty-minute
/// lifetime is offered.
pub fn allowed_intro_ttl(ttl: u64) -> (r: bool)
    ensures
        r == (ttl == INTRO_TTL_30_MIN),
{
    ttl == INTRO_TTL_30_MIN
}

impl HomeServer {
    /// Accepts a share token for an open mailbox, valid for `ttl_secs`
    /// ([`SHARE_TTL_DEFAULT`] when none is given); a lifetime that
    /// [`allowed_intro_ttl`] refuses is denied.
    pub fn register_share_token(&mut self, owner: &[u8; KEY_LEN], token: [u8; KEY_LEN], ttl_secs: Option<u64>) -> (r:
        Result<(), ServerError>)
        requires
            old(self).wf(),
            old(self).clock() + SHARE_TTL_DEFAULT <= u64::MAX,
        ensures
            final(self).wf(),
            final(self).mailboxes() == old(self).mailboxes(),
            final(self).directory() == old(self).directory(),
            final(self).memberships() == old(self).memberships(),
            final(self).clock() == old(self).clock(),
            final(self).id() == old(self).id(),
            final(self).limits() == old(self).limits(),
            final(self).prekeys() == old(self).prekeys(),
            final(self).seen() == old(self).seen(),
            ({
                let ttl = match ttl_secs {
                    Some(t) => t,
                    None => SHARE_TTL_DEFAULT,
                };
                &&& !old(self).open_mailbox(owner@) || ttl != INTRO_TTL_30_MIN ==> r == Err::<(), ServerError>(
                    ServerError::Denied,
                ) && final(self).tokens() == old(self).tokens()
                &&& old(self).open_mailbox(owner@) && ttl == INTRO_TTL_30_MIN ==> r is Ok && final(self).tokens()
                    == old(self).tokens().push(
                    (
                        token@,
                        TokenView::Share {
                            mailbox: owner@,
                            expires_at: (old(self).clock() + ttl) as u64,
                            burned: false,
                            reserved: None,
                        },
                    ),
                )
            }),
    {
        self.require_mailbox(owner)?;
        let ttl = match ttl_secs {
            Some(t) => t,
            None => SHARE_TTL_DEFAULT,
        };
        if !allowed_intro_ttl(ttl) {
            return Err(ServerError::Denied);
        }
        let expires_at = self.now + ttl;
        self.tokens.add_share(*owner, token, expires_at);
        Ok(())
    }

    /// A fresh random share token for an open mailbox; see
    /// [`HomeServer::register_share_token`]. Refused with
    /// [`ServerError::Randomness`], changing nothing, when the operating
    /// system gives no random bytes.
    pub fn mint_share_token(&mut self, owner: &[u8; KEY_LEN], ttl_secs: Option<u64>) -> (r: Result<
        [u8; KEY_LEN],
        ServerError,
    >)
        requires
            old(self).wf(),
            old(self).clock() + SHARE_TTL_DEFAULT <= u64::MAX,
        ensures
            final(self).wf(),
            final(self).mailboxes() == old(self).mailboxes(),
            final(self).directory() == old(self).directory(),
            final(self).clock() == old(self).clock(),
            r == Err::<[u8; KEY_LEN], ServerError>(ServerError::Randomness) ==> final(self).tokens()
                == old(self).tokens(),
            r != Err::<[u8; KEY_LEN], ServerError>(ServerError::Randomness) ==> ({
                let ttl = match ttl_secs {
                    Some(t) => t,
                    None => SHARE_TTL_DEFAULT,
                };
                &&& !old(self).open_mailbox(owner@) || ttl != INTRO_TTL_30_MIN ==> r == Err::<[u8; KEY_LEN], ServerError>(
                    ServerError::Denied,
                ) && final(self).tokens() == old(self).tokens()
                &&& old(self).open_mailbox(owner@) && ttl == INTRO_TTL_30_MIN ==> (r matches Ok(t) && final(self).tokens()
                    == old(self).tokens().push(
                    (
                        t@,
                        TokenView::Share {
                            mailbox: owner@,
                            expires_at: (old(self).clock() + ttl) as u64,
                            burned: false,
                            reserved: None,
                        },
                    ),
                ))
            }),
    {
        let token = match crate::mailbox::random_token() {
            Some(t) => t,
            None => {
                return Err(ServerError::Randomness);
            },
        };
        self.register_share_token(owner, token, ttl_secs)?;
        Ok(token)
    }
}

/// A contact card as the server reads it when an identity registers.
#[derive(Clone, Debug, PartialEq, Eq)]
pub struct CardInfo {
    pub identity_id: [u8; KEY_LEN],
    pub identity_public_key: [u8; KEY_LEN],
    pub revocation_public_key: [u8; KEY_LEN],
    pub binding: BindingFacts,
    pub share_token: [u8; KEY_LEN],
}

impl HomeServer {
    /// Registration from a contact card: a card that verified (`checked`)
    /// and names this server opens the mailbox, records the directory row
    /// and accepts the card's share token for [`SHARE_TTL_DEFAULT`].
    pub fn register_from_card(&mut self, card: &CardInfo, checked: bool) -> (r: Result<[u8; KEY_LEN], ServerError>)
        requires
            old(self).wf(),
            old(self).clock() + SHARE_TTL_DEFAULT <= u64::MAX,
        ensures
            final(self).wf(),
            !checked || card.binding.server_id@ != old(self).id() ==> r == Err::<[u8; KEY_LEN], ServerError>(
                ServerError::Denied,
            ) && final(self).mailboxes() == old(self).mailboxes() && final(self).directory() == old(self).directory(),
            checked && card.binding.server_id@ == old(self).id() && old(self).mailboxes().contains_key(card.identity_id@)
                ==> r == Err::<[u8; KEY_LEN], ServerError>(ServerError::AlreadyRegistered) && final(self).directory()
                == old(self).directory() && final(self).tokens() == old(self).tokens(),
            checked && card.binding.server_id@ == old(self).id() && !old(self).mailboxes().contains_key(card.identity_id@)
                ==> {
                &&& r matches Ok(id) && id == card.identity_id
                &&& final(self).open_mailbox(card.identity_id@)
                &&& final(self).mailboxes()[card.identity_id@].owner() == card.identity_public_key@
                &&& final(self).directory() == old(self).directory().insert(
                    card.identity_id@,
                    RowView {
                        identity_public_key: card.identity_public_key@,
                        revocation_public_key: card.revocation_public_key@,
                        binding: card.binding.bytes@,
                        binding_seq: card.binding.seq,
                        binding_server: card.binding.server_id@,
                        revocation: None,
                    },
                )
                &&& final(self).tokens() == old(self).tokens().push(
                    (
                        card.share_token@,
                        TokenView::Share {
                            mailbox: card.identity_id@,
                            expires_at: (old(self).clock() + SHARE_TTL_DEFAULT) as u64,
                            burned: false,
                            reserved: None,
                        },
                    ),
                )
            },
    {
        if !checked || !same_id(&card.binding.server_id, &self.server_id) {
            return Err(ServerError::Denied);
        }
        self.register(card.identity_id, card.identity_public_key)?;
        self.directory.insert(
            card.identity_id,
            DiscoveryRow {
                identity_public_key: card.identity_public_key,
                revocation_public_key: card.revocation_public_key,
                binding: copy_bytes(&card.binding.bytes),
                binding_seq: card.binding.seq,
                binding_server: card.binding.server_id,
                revocation: None,
            },
        );
        self.register_share_token(&card.identity_id, card.share_token, None)?;
        Ok(card.identity_id)
    }

    /// The directory row of an identity; unknown identities are denied.
    pub fn discovery(&self, identity_id: &[u8; KEY_LEN]) -> (r: Result<DiscoveryRow, ServerError>)
        requires
            self.wf(),
        ensures
            self.directory().contains_key(identity_id@) ==> (r matches Ok(row) && row@ == self.directory()[identity_id@]),
            !self.directory().contains_key(identity_id@) ==> r == Err::<DiscoveryRow, ServerError>(ServerError::Denied),
    {
        match self.directory.get(identity_id) {
            Some(row) => Ok(copy_row(row)),
            None => Err(ServerError::Denied),
        }
    }

    /// The key a binding for `identity_id` must be signed with: the
    /// directory's, else the mailbox owner's.
    pub fn binding_key(&self, identity_id: &[u8; KEY_LEN]) -> (r: Option<[u8; KEY_LEN]>)
        requires
            self.wf(),
        ensures
            self.directory().contains_key(identity_id@) ==> (r matches Some(k) && k@ == self.directory()[identity_id@].identity_public_key),
            !self.directory().contains_key(identity_id@) && self.mailboxes().contains_key(identity_id@) ==> (r matches Some(
                k,
            ) && k@ == self.mailboxes()[identity_id@].owner()),
            !self.directory().contains_key(identity_id@) && !self.mailboxes().contains_key(identity_id@) ==> r is None,
    {
        match self.directory.get(identity_id) {
            Some(row) => Some(row.identity_public_key),
            None => self.owner_pk(identity_id),
        }
    }

    /// A newer home binding for an identity, checked by the caller against
    /// [`HomeServer::binding_key`]: one above the recorded number is
    /// recorded, and one for another server disables the mailbox here.
    pub fn observe_binding(&mut self, identity_id: &[u8; KEY_LEN], binding: &BindingFacts, checked: bool) -> (r:
        Result<(), ServerError>)
        requires
            old(self).wf(),
        ensures
            final(self).wf(),
            ({
                let known = old(self).directory().contains_key(identity_id@) || old(self).mailboxes().contains_key(identity_id@);
                let stored = if old(self).directory().contains_key(identity_id@) {
                    old(self).directory()[identity_id@].binding_seq
                } else {
                    0u64
                };
                &&& !(known && checked) ==> r == Err::<(), ServerError>(ServerError::Denied)
                    && final(self).directory() == old(self).directory() && final(self).mailboxes() == old(self).mailboxes()
                &&& known && checked ==> r is Ok
                &&& known && checked && binding.seq <= stored ==> final(self).directory() == old(self).directory()
                    && final(self).mailboxes() == old(self).mailboxes()
                &&& known && checked && binding.seq > stored ==> {
                    &&& final(self).directory().dom() == old(self).directory().dom().insert(identity_id@)
                    &&& final(self).directory()[identity_id@].binding_seq == binding.seq
                    &&& final(self).directory()[identity_id@].binding_server == binding.server_id@
                    &&& final(self).directory()[identity_id@].binding == binding.bytes@
                    &&& binding.server_id@ != old(self).id() && old(self).mailboxes().contains_key(identity_id@)
                        ==> final(self).mailboxes()[identity_id@].disabled()
                    &&& binding.server_id@ == old(self).id() ==> final(self).mailboxes() == old(self).mailboxes()
                }
            }),
    {
        let pk = match self.binding_key(identity_id) {
            Some(pk) => pk,
            None => {
                return Err(ServerError::Denied);
            },
        };
        if !checked {
            return Err(ServerError::Denied);
        }
        let stored = match self.directory.get(identity_id) {
            Some(row) => row.binding_seq,
            None => 0,
        };
        let here = same_id(&binding.server_id, &self.server_id);
        match binding_action(stored, binding.seq, here) {
            BindingAction::Keep => Ok(()),
            action => {
                let row = match self.directory.get(identity_id) {
                    Some(row) => DiscoveryRow {
                        identity_public_key: row.identity_public_key,
                        revocation_public_key: row.revocation_public_key,
                        binding: copy_bytes(&binding.bytes),
                        binding_seq: binding.seq,
                        binding_server: binding.server_id,
                        revocation: match &row.revocation {
                            Some(v) => Some(copy_bytes(v)),
                            None => None,
                        },
                    },
                    None => DiscoveryRow {
                        identity_public_key: pk,
                        revocation_public_key: [0u8; KEY_LEN],
                        binding: copy_bytes(&binding.bytes),
                        binding_seq: binding.seq,
                        binding_server: binding.server_id,
                        revocation: None,
                    },
                };
                self.directory.insert(*identity_id, row);
                if action == BindingAction::RecordAndDisable {
                    self.disable_mailbox(identity_id);
                }
                Ok(())
            },
        }
    }

    /// A revocation statement, checked by the caller against the
    /// directory's revocation key: the directory keeps it, the mailbox is
    /// closed, and the groups the identity belonged to are returned (so
    /// their hosts can append it).
    pub fn ingest_revocation(&mut self, identity_id: &[u8; KEY_LEN], statement: Vec<u8>, checked: bool) -> (r:
        Result<Vec<[u8; KEY_LEN]>, ServerError>)
        requires
            old(self).wf(),
        ensures
            final(self).wf(),
            !(old(self).directory().contains_key(identity_id@) && checked) ==> r == Err::<Vec<[u8; KEY_LEN]>, ServerError>(
                ServerError::Denied,
            ) && final(self).directory() == old(self).directory() && final(self).mailboxes() == old(self).mailboxes(),
            old(self).directory().contains_key(identity_id@) && checked ==> {
                &&& final(self).directory() == old(self).directory().insert(
                    identity_id@,
                    RowView { revocation: Some(statement@), ..old(self).directory()[identity_id@] },
                )
                &&& old(self).mailboxes().contains_key(identity_id@) ==> final(self).mailboxes()[identity_id@].disabled()
                &&& !final(self).memberships().contains_key(identity_id@)
                &&& old(self).memberships().contains_key(identity_id@) ==> (r matches Ok(v) && v@ == old(self).memberships()[identity_id@]@)
                &&& !old(self).memberships().contains_key(identity_id@) ==> (r matches Ok(v) && v@.len() == 0)
                &&& final(self).tokens() == without_owner(old(self).tokens(), identity_id@)
            },
    {
        let row = match self.directory.get(identity_id) {
            Some(row) => copy_row(row),
            None => {
                return Err(ServerError::Denied);
            },
        };
        if !checked {
            return Err(ServerError::Denied);
        }
        self.directory.insert(*identity_id, DiscoveryRow { revocation: Some(statement), ..row });
        self.disable_mailbox(identity_id);
        match self.memberships.remove(identity_id) {
            Some(groups) => Ok(groups),
            None => Ok(Vec::new()),
        }
    }
}

/// A token after the append it allowed: a share token is spent, a contact
/// capability stays as it is.
pub open spec fn spent(t: TokenView) -> TokenView {
    match t {
        TokenView::Share { mailbox, expires_at, reserved, .. } => TokenView::Share {
            mailbox,
            expires_at,
            burned: true,
            reserved,
        },
        _ => t,
    }
}

/// Rewriting the last entry of a token keeps it the last entry.
proof fn lemma_last_match_kept(s: Seq<(Seq<u8>, TokenView)>, i: int, t: Seq<u8>, x: TokenView)
    requires
        last_match(s, t) == Some(i),
    ensures
        last_match(s.update(i, (t, x)), t) == Some(i),
    decreases s.len(),
{
    lemma_last_match(s, t);
    let u = s.update(i, (t, x));
    if i != s.len() - 1 {
        assert(s.last().0 != t);
        assert(u.last() == s.last());
        assert(u.drop_last() =~= s.drop_last().update(i, (t, x)));
        lemma_last_match_kept(s.drop_last(), i, t, x);
    }
}

/// What an append with `token` does to a server and answers: see
/// [`HomeServer::append_inner`].
pub open spec fn appended(
    before: HomeServer,
    after: HomeServer,
    token: Seq<u8>,
    idem: Seq<u8>,
    inner: Seq<u8>,
    ttl: TtlBucket,
    r: Result<u64, ServerError>,
) -> bool {
    match last_match(before.tokens(), token) {
        None => r == Err::<u64, ServerError>(ServerError::Denied) && after.tokens() == before.tokens()
            && after.mailboxes() == before.mailboxes(),
        Some(i) => {
            let (m, after_t) = authorized(before.tokens()[i].1, before.clock());
            let counted = before.tokens().update(i, (token, after_t));
            match m {
                None => r == Err::<u64, ServerError>(ServerError::Denied) && after.tokens() == counted
                    && after.mailboxes() == before.mailboxes(),
                Some(mb) => if !before.open_mailbox(mb) {
                    r == Err::<u64, ServerError>(ServerError::Denied) && after.tokens() == counted
                        && after.mailboxes() == before.mailboxes()
                } else {
                    let bx = before.mailboxes()[mb];
                    match idem_lookup(bx.idem(), idem) {
                        Some(s) => r == Ok::<u64, ServerError>(s) && after.tokens() == counted
                            && after.mailboxes() == before.mailboxes(),
                        None => {
                            let row = EnvelopeView {
                                seq: bx.next_seq(),
                                received_at: before.clock(),
                                expires_at: expiry_of(
                                    before.clock(),
                                    ttl,
                                    before.limits().mailbox_max_age_secs,
                                ),
                                inner,
                            };
                            let nb = after.mailboxes()[mb];
                            &&& r == Ok::<u64, ServerError>(bx.next_seq())
                            &&& after.tokens() == counted.update(i, (token, spent(after_t)))
                            &&& after.mailboxes().dom() == before.mailboxes().dom()
                            &&& forall|k: Seq<u8>| k != mb && #[trigger] before.mailboxes().contains_key(k)
                                ==> after.mailboxes()[k] == before.mailboxes()[k]
                            &&& nb.next_seq() == bx.next_seq() + 1
                            &&& nb.rows() == collected(bx.rows().push(row), before.clock(), before.limits())
                            &&& nb.idem() == idem_after(
                                bx.idem().push((idem, bx.next_seq())),
                                bx.rows().push(row),
                                nb.rows(),
                            )
                            &&& !nb.disabled()
                            &&& nb.owner() == bx.owner()
                        },
                    }
                },
            }
        },
    }
}

/// What ingesting an opened envelope does to a server and answers: see
/// [`HomeServer::ingest_opened`].
pub open spec fn ingested(
    before: HomeServer,
    after: HomeServer,
    enc: Seq<u8>,
    token: Seq<u8>,
    idem: Seq<u8>,
    inner: Seq<u8>,
    ttl: TtlBucket,
    r: Result<u64, ServerError>,
) -> bool {
    if before.seen().contains_key(enc) {
        &&& r == Ok::<u64, ServerError>(before.seen()[enc])
        &&& after.mailboxes() == before.mailboxes()
        &&& after.tokens() == before.tokens()
        &&& after.seen() == before.seen()
    } else {
        &&& appended(before, after, token, idem, inner, ttl, r)
        &&& match r {
            Ok(s) => after.seen() == if before.seen().dom().len() >= HPKE_ENC_WINDOW {
                Map::<Seq<u8>, u64>::empty().insert(enc, s)
            } else {
                before.seen().insert(enc, s)
            },
            Err(_) => after.seen() == before.seen(),
        }
    }
}

impl HomeServer {
    /// Appends an opened envelope to the mailbox its delivery token opens:
    /// the token is checked and counted, a disabled or missing mailbox is
    /// denied, an idempotency token already seen answers with its earlier
    /// number, and otherwise the row gets the next number, the mailbox is
    /// collected and a share token is spent.
    pub fn append_inner(
        &mut self,
        token: &[u8; KEY_LEN],
        idempotency_token: [u8; KEY_LEN],
        inner: Vec<u8>,
        ttl: TtlBucket,
    ) -> (r: Result<u64, ServerError>)
        requires
            old(self).wf(),
            forall|k: Seq<u8>| #[trigger] old(self).mailboxes().contains_key(k) ==> old(self).mailboxes()[k].next_seq()
                < u64::MAX && old(self).mailboxes()[k].bytes() + inner@.len() <= u64::MAX,
        ensures
            final(self).wf(),
            final(self).clock() == old(self).clock(),
            final(self).limits() == old(self).limits(),
            final(self).directory() == old(self).directory(),
            final(self).seen() == old(self).seen(),
            appended(*old(self), *final(self), token@, idempotency_token@, inner@, ttl, r),
            final(self).peers() == old(self).peers(),
            final(self).id() == old(self).id(),
            final(self).outbound() == old(self).outbound(),
    {
        let now = self.now;
        let ghost t0 = self.tokens();
        proof {
            lemma_last_match(t0, token@);
        }
        let mailbox = self.tokens.authorize(token, now)?;
        let ghost counted = self.tokens();
        self.require_mailbox(&mailbox)?;
        let ghost before = self.mailboxes.map();
        let seen = match self.mailboxes.get(&mailbox) {
            Some(m) => m.token_seq(&idempotency_token),
            None => {
                return Err(ServerError::Denied);
            },
        };
        if let Some(s) = seen {
            return Ok(s);
        }
        proof {
            assert(before[mailbox@].wf());
            assert(old(self).mailboxes().contains_key(mailbox@));
        }
        let mut m = match self.mailboxes.remove(&mailbox) {
            Some(m) => m,
            None => {
                proof {
                    assert(false);
                }
                return Err(ServerError::Denied);
            },
        };
        let limits = self.limits;
        let seq = m.append(idempotency_token, inner, now, ttl, limits);
        self.mailboxes.insert(mailbox, m);
        proof {
            assert forall|k: Seq<u8>| #[trigger] self.mailboxes.map().contains_key(k) implies self.mailboxes.map()[k].wf() by {
                if k != mailbox@ {
                    assert(before.contains_key(k));
                }
            }
            assert(self.mailboxes().dom() =~= before.dom());
            let i = last_match(t0, token@)->0;
            let after = authorized(t0[i].1, now).1;
            lemma_last_match_kept(t0, i, token@, after);
        }
        self.tokens.burn(token);
        proof {
            let i = last_match(t0, token@)->0;
            let after = authorized(t0[i].1, now).1;
            assert(counted == t0.update(i, (token@, after)));
            assert(counted[i].1 == after);
            match after {
                TokenView::Share { .. } => {},
                _ => {
                    assert(counted.update(i, (token@, spent(after))) =~= counted);
                },
            }
        }
        Ok(seq)
    }

    /// An envelope that came from another server, already opened: one
    /// whose encapsulated key is in the replay window is answered with the
    /// number it got then and not appended again; otherwise it is appended
    /// as [`HomeServer::append_inner`] does and its key recorded.
    pub fn ingest_opened(
        &mut self,
        enc: [u8; KEY_LEN],
        token: &[u8; KEY_LEN],
        idempotency_token: [u8; KEY_LEN],
        inner: Vec<u8>,
        ttl: TtlBucket,
    ) -> (r: Result<u64, ServerError>)
        requires
            old(self).wf(),
            forall|k: Seq<u8>| #[trigger] old(self).mailboxes().contains_key(k) ==> old(self).mailboxes()[k].next_seq()
                < u64::MAX && old(self).mailboxes()[k].bytes() + inner@.len() <= u64::MAX,
        ensures
            final(self).wf(),
            ingested(*old(self), *final(self), enc@, token@, idempotency_token@, inner@, ttl, r),
            final(self).peers() == old(self).peers(),
            final(self).clock() == old(self).clock(),
            final(self).id() == old(self).id(),
            final(self).limits() == old(self).limits(),
            final(self).directory() == old(self).directory(),
            final(self).outbound() == old(self).outbound(),
    {
        if let Some(seq) = self.seen.lookup(&enc) {
            return Ok(seq);
        }
        let seq = self.append_inner(token, idempotency_token, inner, ttl)?;
        self.seen.record(enc, seq);
        Ok(seq)
    }

    /// Whether an owner request may proceed: the mailbox exists, is not
    /// disabled, and the request's signature checked out (`owner_ok`).
    fn check_owner(&self, owner: &[u8; KEY_LEN], owner_ok: bool) -> (r: Result<(), ServerError>)
        requires
            self.wf(),
        ensures
            r is Ok <==> self.open_mailbox(owner@) && owner_ok,
            r is Err ==> r == Err::<(), ServerError>(ServerError::OwnerAuth),
    {
        match self.mailboxes.get(owner) {
            Some(m) => {
                if m.is_disabled() || !owner_ok {
                    Err(ServerError::OwnerAuth)
                } else {
                    Ok(())
                }
            },
            None => Err(ServerError::OwnerAuth),
        }
    }

    /// The owner's rows after `cursor`, oldest first, at most `limit` of
    /// them, after collecting the mailbox (see [`Mailbox::fetch`]).
    pub fn fetch(&mut self, owner: &[u8; KEY_LEN], owner_ok: bool, cursor: u64, limit: u64) -> (r: Result<
        Vec<StoredEnvelope>,
        ServerError,
    >)
        requires
            old(self).wf(),
        ensures
            final(self).wf(),
            final(self).clock() == old(self).clock(),
            final(self).tokens() == old(self).tokens(),
            final(self).directory() == old(self).directory(),
            !(old(self).open_mailbox(owner@) && owner_ok) ==> r == Err::<Vec<StoredEnvelope>, ServerError>(
                ServerError::OwnerAuth,
            ) && final(self).mailboxes() == old(self).mailboxes(),
            old(self).open_mailbox(owner@) && owner_ok && (limit == 0 || limit > FETCH_LIMIT_MAX) ==> r == Err::<
                Vec<StoredEnvelope>,
                ServerError,
            >(ServerError::FetchLimit) && final(self).mailboxes() == old(self).mailboxes(),
            old(self).open_mailbox(owner@) && owner_ok && !(limit == 0 || limit > FETCH_LIMIT_MAX) ==> {
                let bx = old(self).mailboxes()[owner@];
                let nb = final(self).mailboxes()[owner@];
                &&& final(self).mailboxes().dom() == old(self).mailboxes().dom()
                &&& forall|k: Seq<u8>| k != owner@ && #[trigger] old(self).mailboxes().contains_key(k)
                    ==> final(self).mailboxes()[k] == old(self).mailboxes()[k]
                &&& nb.rows() == collected(bx.rows(), old(self).clock(), old(self).limits())
                &&& nb.idem() == idem_after(bx.idem(), bx.rows(), nb.rows())
                &&& nb.next_seq() == bx.next_seq()
                &&& !nb.disabled()
                &&& nb.owner() == bx.owner()
                &&& r matches Ok(v) && {
                    let all = visible(nb.rows(), cursor, old(self).clock());
                    envs_view(v@) == all.take(
                        if all.len() <= limit {
                            all.len() as int
                        } else {
                            limit as int
                        },
                    )
                }
            },
    {
        self.check_owner(owner, owner_ok)?;
        if limit == 0 || limit > FETCH_LIMIT_MAX {
            return Err(ServerError::FetchLimit);
        }
        let ghost before = self.mailboxes.map();
        proof {
            assert(before[owner@].wf());
        }
        let mut m = match self.mailboxes.remove(owner) {
            Some(m) => m,
            None => {
                proof {
                    assert(false);
                }
                return Err(ServerError::OwnerAuth);
            },
        };
        let now = self.now;
        let limits = self.limits;
        let r = m.fetch(cursor, limit, now, limits);
        self.mailboxes.insert(*owner, m);
        proof {
            assert forall|k: Seq<u8>| #[trigger] self.mailboxes.map().contains_key(k) implies self.mailboxes.map()[k].wf() by {
                if k != owner@ {
                    assert(before.contains_key(k));
                }
            }
            assert(self.mailboxes().dom() =~= before.dom());
        }
        r
    }

    /// Drops the owner's rows up to and including `up_to` (see
    /// [`Mailbox::ack`]).
    pub fn ack(&mut self, owner: &[u8; KEY_LEN], owner_ok: bool, up_to: u64) -> (r: Result<(), ServerError>)
        requires
            old(self).wf(),
        ensures
            final(self).wf(),
            final(self).clock() == old(self).clock(),
            final(self).tokens() == old(self).tokens(),
            final(self).directory() == old(self).directory(),
            !(old(self).open_mailbox(owner@) && owner_ok) ==> r == Err::<(), ServerError>(ServerError::OwnerAuth)
                && final(self).mailboxes() == old(self).mailboxes(),
            old(self).open_mailbox(owner@) && owner_ok ==> {
                let bx = old(self).mailboxes()[owner@];
                let nb = final(self).mailboxes()[owner@];
                &&& r is Ok
                &&& final(self).mailboxes().dom() == old(self).mailboxes().dom()
                &&& forall|k: Seq<u8>| k != owner@ && #[trigger] old(self).mailboxes().contains_key(k)
                    ==> final(self).mailboxes()[k] == old(self).mailboxes()[k]
                &&& nb.rows() == after_ack(bx.rows(), up_to)
                &&& nb.idem() == bx.idem()
                &&& nb.next_seq() == bx.next_seq()
                &&& !nb.disabled()
                &&& nb.owner() == bx.owner()
            },
    {
        self.check_owner(owner, owner_ok)?;
        let ghost before = self.mailboxes.map();
        proof {
            assert(before[owner@].wf());
        }
        let mut m = match self.mailboxes.remove(owner) {
            Some(m) => m,
            None => {
                proof {
                    assert(false);
                }
                return Err(ServerError::OwnerAuth);
            },
        };
        m.ack(up_to);
        self.mailboxes.insert(*owner, m);
        proof {
            assert forall|k: Seq<u8>| #[trigger] self.mailboxes.map().contains_key(k) implies self.mailboxes.map()[k].wf() by {
                if k != owner@ {
                    assert(before.contains_key(k));
                }
            }
            assert(self.mailboxes().dom() =~= before.dom());
        }
        Ok(())
    }
}

/// An envelope opened with this home's HPKE key: its encapsulated key and
/// what its inner envelope carries (the inner in its padded encoding).
pub struct OpenedEnvelope {
    pub enc: [u8; KEY_LEN],
    pub delivery_capability: [u8; KEY_LEN],
    pub idempotency_token: [u8; KEY_LEN],
    pub inner: Vec<u8>,
    pub ttl: TtlBucket,
}

/// An enqueue result as an ingest result.
pub open spec fn as_ingest(r: Result<Enqueue, ServerError>) -> Result<u64, ServerError> {
    match r {
        Ok(Enqueue::Local(s)) => Ok(s),
        Ok(Enqueue::Queued) => Err(ServerError::Denied),
        Err(e) => Err(e),
    }
}

/// What sending an envelope on does: see [`HomeServer::enqueue`].
pub open spec fn enqueued(
    before: HomeServer,
    after: HomeServer,
    dest: Seq<u8>,
    outer: Seq<u8>,
    opened: Result<OpenedEnvelope, ServerError>,
    r: Result<Enqueue, ServerError>,
) -> bool {
    if dest == before.id() {
        match opened {
            Ok(o) => {
                &&& !(r matches Ok(Enqueue::Queued))
                &&& ingested(
                    before,
                    after,
                    o.enc@,
                    o.delivery_capability@,
                    o.idempotency_token@,
                    o.inner@,
                    o.ttl,
                    as_ingest(r),
                )
                &&& after.outbound() == before.outbound()
            },
            Err(e) => {
                &&& r == Err::<Enqueue, ServerError>(e)
                &&& after.mailboxes() == before.mailboxes()
                &&& after.tokens() == before.tokens()
                &&& after.seen() == before.seen()
                &&& after.outbound() == before.outbound()
            },
        }
    } else {
        &&& r == Ok::<Enqueue, ServerError>(Enqueue::Queued)
        &&& after.outbound() == before.outbound().push((dest, outer, before.clock(), before.clock(), 1u64))
        &&& after.mailboxes() == before.mailboxes()
        &&& after.tokens() == before.tokens()
        &&& after.seen() == before.seen()
    }
}

impl HomeServer {
    /// Sends an envelope on: one for this home is ingested (`opened` is
    /// what opening it with this home's HPKE key gave, and is read only
    /// then; a failed opening is returned), one for another home is queued
    /// for its first attempt now.
    pub fn enqueue(&mut self, dest: [u8; KEY_LEN], outer: Vec<u8>, opened: Result<OpenedEnvelope, ServerError>) -> (r:
        Result<Enqueue, ServerError>)
        requires
            old(self).wf(),
            opened matches Ok(o) ==> forall|k: Seq<u8>| #[trigger] old(self).mailboxes().contains_key(k)
                ==> old(self).mailboxes()[k].next_seq() < u64::MAX && old(self).mailboxes()[k].bytes() + o.inner@.len()
                <= u64::MAX,
        ensures
            final(self).wf(),
            final(self).clock() == old(self).clock(),
            final(self).id() == old(self).id(),
            final(self).directory() == old(self).directory(),
            enqueued(*old(self), *final(self), dest@, outer@, opened, r),
    {
        if same_id(&dest, &self.server_id) {
            match opened {
                Ok(o) => {
                    let ghost ov = self.outbound();
                    let seq = self.ingest_opened(o.enc, &o.delivery_capability, o.idempotency_token, o.inner, o.ttl)?;
                    Ok(Enqueue::Local(seq))
                },
                Err(e) => Err(e),
            }
        } else {
            let now = self.now;
            let row = OutboundRow { dest, outer, enqueued_at: now, next_attempt: now, backoff_secs: 1 };
            let ghost before = self.outbound();
            let ghost rv = outbound_view(&row);
            self.outbound.push(row);
            assert(self.outbound() =~= before.push(rv));
            Ok(Enqueue::Queued)
        }
    }

    /// An owner sends an envelope on through its home: the request must
    /// check out as in [`HomeServer::fetch`], then see
    /// [`HomeServer::enqueue`].
    pub fn enqueue_from_owner(
        &mut self,
        owner: &[u8; KEY_LEN],
        owner_ok: bool,
        dest: [u8; KEY_LEN],
        outer: Vec<u8>,
        opened: Result<OpenedEnvelope, ServerError>,
    ) -> (r: Result<Enqueue, ServerError>)
        requires
            old(self).wf(),
            opened matches Ok(o) ==> forall|k: Seq<u8>| #[trigger] old(self).mailboxes().contains_key(k)
                ==> old(self).mailboxes()[k].next_seq() < u64::MAX && old(self).mailboxes()[k].bytes() + o.inner@.len()
                <= u64::MAX,
        ensures
            final(self).wf(),
            final(self).clock() == old(self).clock(),
            final(self).directory() == old(self).directory(),
            !(old(self).open_mailbox(owner@) && owner_ok) ==> r == Err::<Enqueue, ServerError>(ServerError::OwnerAuth)
                && final(self).mailboxes() == old(self).mailboxes() && final(self).tokens() == old(self).tokens()
                && final(self).outbound() == old(self).outbound() && final(self).seen() == old(self).seen(),
            old(self).open_mailbox(owner@) && owner_ok ==> enqueued(*old(self), *final(self), dest@, outer@, opened, r),
    {
        self.check_owner(owner, owner_ok)?;
        self.require_mailbox(owner)?;
        self.enqueue(dest, outer, opened)
    }

    /// How many envelopes wait for other homes.
    pub fn outbound_len(&self) -> (n: usize)
        ensures
            n == self.outbound().len(),
    {
        self.outbound.len()
    }

    /// Puts every queued envelope's next attempt at `until`.
    pub fn defer_outbound(&mut self, until: u64)
        requires
            old(self).wf(),
        ensures
            final(self).wf(),
            final(self).outbound().len() == old(self).outbound().len(),
            forall|i: int| 0 <= i < old(self).outbound().len() ==> #[trigger] final(self).outbound()[i] == (
                old(self).outbound()[i].0,
                old(self).outbound()[i].1,
                old(self).outbound()[i].2,
                until,
                old(self).outbound()[i].4,
            ),
            final(self).mailboxes() == old(self).mailboxes(),
            final(self).tokens() == old(self).tokens(),
            final(self).seen() == old(self).seen(),
            final(self).clock() == old(self).clock(),
    {
        let mut rows: Vec<OutboundRow> = Vec::new();
        std::mem::swap(&mut rows, &mut self.outbound);
        let ghost orig = rows@;
        let mut i: usize = 0;
        while i < rows.len()
            invariant
                rows@.len() == orig.len(),
                i <= rows@.len(),
                forall|j: int| 0 <= j < i ==> #[trigger] outbound_view(&rows@[j]) == (
                    orig[j].dest@,
                    orig[j].outer@,
                    orig[j].enqueued_at,
                    until,
                    orig[j].backoff_secs,
                ),
                forall|j: int| i <= j < rows@.len() ==> #[trigger] rows@[j] == orig[j],
            decreases rows@.len() - i,
        {
            let mut row = rows.remove(i);
            row.next_attempt = until;
            rows.insert(i, row);
            i = i + 1;
        }
        self.outbound = rows;
        proof {
            assert forall|j: int| 0 <= j < old(self).outbound().len() implies #[trigger] self.outbound()[j] == (
                old(self).outbound()[j].0,
                old(self).outbound()[j].1,
                old(self).outbound()[j].2,
                until,
                old(self).outbound()[j].4,
            ) by {
                assert(old(self).outbound()[j] == outbound_view(&orig[j]));
                assert(self.outbound()[j] == outbound_view(&self.outbound@[j]));
            }
        }
    }
}

// ---------------------------------------------------------------------------
// Peer homes
// ---------------------------------------------------------------------------

impl HomeServer {
    /// Whether the peer with server id `peer` is pinned and refused.
    pub fn peer_refused(&self, peer: &[u8; KEY_LEN]) -> (r: bool)
        requires
            self.wf(),
        ensures
            r == (self.peers().contains_key(peer@) && self.peers()[peer@].refused),
    {
        match self.peers.get(peer) {
            Some(p) => p.refused,
            None => false,
        }
    }

    /// The signing key pinned for a peer.
    pub fn bundle_pin(&self, peer: &[u8; KEY_LEN]) -> (r: Option<[u8; KEY_LEN]>)
        requires
            self.wf(),
        ensures
            self.peers().contains_key(peer@) ==> r == Some(self.peers()[peer@].sign_pk),
            !self.peers().contains_key(peer@) ==> r is None,
    {
        match self.peers.get(peer) {
            Some(p) => Some(p.sign_pk),
            None => None,
        }
    }
}

/// Pins a peer home from its bundle (its server id and signing key;
/// `verified` is the outcome of checking the bundle's signature, and a
/// failure is returned). A bundle naming this home itself, or a peer
/// already pinned, changes nothing.
pub fn pin(
    home: &mut HomeServer,
    server_id: [u8; KEY_LEN],
    sign_pk: [u8; KEY_LEN],
    verified: Result<(), ServerError>,
) -> (r: Result<(), ServerError>)
    requires
        old(home).wf(),
    ensures
        final(home).wf(),
        verified matches Err(e) ==> r == Err::<(), ServerError>(e) && final(home).peers() == old(home).peers(),
        verified is Ok ==> r is Ok,
        verified is Ok && server_id@ != old(home).id() && !old(home).peers().contains_key(server_id@) ==> {
            &&& final(home).peers().dom() == old(home).peers().dom().insert(server_id@)
            &&& forall|k: Seq<u8>| k != server_id@ && #[trigger] old(home).peers().contains_key(k)
                ==> final(home).peers()[k] == old(home).peers()[k]
            &&& final(home).peers()[server_id@].sign_pk == sign_pk
            &&& !final(home).peers()[server_id@].refused
            &&& final(home).peers()[server_id@].link == (LinkCounters { last_rx: 0, next_tx: 1 })
            &&& !final(home).peers()[server_id@].hello_done
        },
        !(verified is Ok && server_id@ != old(home).id() && !old(home).peers().contains_key(server_id@))
            ==> final(home).peers() == old(home).peers(),
        final(home).mailboxes() == old(home).mailboxes(),
        final(home).outbound() == old(home).outbound(),
        final(home).id() == old(home).id(),
        final(home).clock() == old(home).clock(),
{
    verified?;
    if same_id(&home.server_id, &server_id) {
        return Ok(());
    }
    if home.peers.contains(&server_id) {
        return Ok(());
    }
    let ghost before = home.peers.map();
    home.peers.insert(server_id, PeerState::new(sign_pk));
    proof {
        assert forall|k: Seq<u8>| #[trigger] home.peers.map().contains_key(k) implies home.peers.map()[k].seen.wf() by {
            if k != server_id@ {
                assert(before.contains_key(k));
            }
        }
        assert(home.peers().dom() =~= before.dom().insert(server_id@));
    }
    Ok(())
}

/// Pins two homes to each other, each with the other's bundle.
pub fn pin_each_other(
    a: &mut HomeServer,
    b: &mut HomeServer,
    a_sign_pk: [u8; KEY_LEN],
    b_sign_pk: [u8; KEY_LEN],
) -> (r: Result<(), ServerError>)
    requires
        old(a).wf(),
        old(b).wf(),
    ensures
        final(a).wf(),
        final(b).wf(),
        r is Ok,
        old(a).id() != old(b).id() ==> final(a).peers().contains_key(old(b).id()) && final(b).peers().contains_key(
            old(a).id(),
        ),
        final(a).mailboxes() == old(a).mailboxes(),
        final(b).mailboxes() == old(b).mailboxes(),
        final(a).outbound() == old(a).outbound(),
        final(b).outbound() == old(b).outbound(),
        final(a).id() == old(a).id(),
        final(b).id() == old(b).id(),
{
    let b_id = b.server_id();
    let a_id = a.server_id();
    pin(a, b_id, b_sign_pk, Ok(()))?;
    pin(b, a_id, a_sign_pk, Ok(()))?;
    Ok(())
}

/// Refuses a pinned peer from now on.
pub fn refuse(home: &mut HomeServer, peer: &[u8; KEY_LEN])
    requires
        old(home).wf(),
    ensures
        final(home).wf(),
        final(home).peers().dom() == old(home).peers().dom(),
        old(home).peers().contains_key(peer@) ==> final(home).peers()[peer@] == (PeerState {
            refused: true,
            ..old(home).peers()[peer@]
        }),
        forall|k: Seq<u8>| k != peer@ && #[trigger] old(home).peers().contains_key(k) ==> final(home).peers()[k]
            == old(home).peers()[k],
        final(home).mailboxes() == old(home).mailboxes(),
        final(home).outbound() == old(home).outbound(),
        final(home).id() == old(home).id(),
{
    let ghost before = home.peers.map();
    if let Some(mut p) = home.peers.remove(peer) {
        p.refused = true;
        home.peers.insert(*peer, p);
        proof {
            assert forall|k: Seq<u8>| #[trigger] home.peers.map().contains_key(k) implies home.peers.map()[k].seen.wf() by {
                if k != peer@ {
                    assert(before.contains_key(k));
                }
            }
            assert(home.peers().dom() =~= before.dom());
        }
    } else {
        assert(home.peers() =~= before);
    }
}

/// A peer's new signing key, from a rotation statement checked by the
/// caller against the key pinned now (`verified`; a failure is returned).
pub fn apply_sign_rotate(
    home: &mut HomeServer,
    peer: &[u8; KEY_LEN],
    new_public_key: [u8; KEY_LEN],
    verified: Result<(), ServerError>,
) -> (r: Result<(), ServerError>)
    requires
        old(home).wf(),
    ensures
        final(home).wf(),
        !old(home).peers().contains_key(peer@) ==> r == Err::<(), ServerError>(ServerError::NotPinned)
            && final(home).peers() == old(home).peers(),
        old(home).peers().contains_key(peer@) && verified is Err ==> r == verified && final(home).peers()
            == old(home).peers(),
        old(home).peers().contains_key(peer@) && verified is Ok ==> r is Ok && final(home).peers() == old(
            home,
        ).peers().insert(peer@, PeerState { sign_pk: new_public_key, ..old(home).peers()[peer@] }),
        final(home).mailboxes() == old(home).mailboxes(),
        final(home).outbound() == old(home).outbound(),
        final(home).id() == old(home).id(),
{
    if !home.peers.contains(peer) {
        return Err(ServerError::NotPinned);
    }
    verified?;
    let ghost before = home.peers.map();
    if let Some(mut p) = home.peers.remove(peer) {
        p.sign_pk = new_public_key;
        home.peers.insert(*peer, p);
        proof {
            assert forall|k: Seq<u8>| #[trigger] home.peers.map().contains_key(k) implies home.peers.map()[k].seen.wf() by {
                if k != peer@ {
                    assert(before.contains_key(k));
                }
            }
        }
    }
    Ok(())
}

// ---------------------------------------------------------------------------
// The hop between two homes
// ---------------------------------------------------------------------------

/// How many bytes of an HPKE ciphertext are its encapsulated key.
pub const ENCAP_LEN: usize = 32;

/// What a server-to-server frame carries.
#[derive(Clone, Debug, PartialEq, Eq)]
pub enum S2sPayload {
    /// The greeting that opens a link.
    Hello { sender: [u8; KEY_LEN], receiver: [u8; KEY_LEN] },
    /// An envelope was taken, under this mailbox number (0 for a replayed
    /// frame).
    Accepted(u64),
    /// An envelope was not taken.
    Fail,
    /// An HPKE-sealed envelope for the receiving home.
    Ciphertext(Vec<u8>),
    /// No answer (to a greeting).
    Empty,
}

/// A frame on a link: its counter and payload.
#[derive(Clone, Debug, PartialEq, Eq)]
pub struct S2sFrame {
    pub counter: u64,
    pub payload: S2sPayload,
}

/// The rows of `s` for homes other than `dest`, in order.
pub open spec fn others(s: Seq<OutboundView>, dest: Seq<u8>) -> Seq<OutboundView>
    decreases s.len(),
{
    if s.len() == 0 {
        seq![]
    } else if s.last().0 != dest {
        others(s.drop_last(), dest).push(s.last())
    } else {
        others(s.drop_last(), dest)
    }
}

/// What a pump to `dest` at `now` does with a row.
pub open spec fn due_view(r: OutboundView, dest: Seq<u8>, now: u64) -> Due {
    due_of(r.2, r.3, r.0 == dest, now)
}

/// How many rows of `s` a pump to `dest` at `now` treats as `d`.
pub open spec fn count_due(s: Seq<OutboundView>, dest: Seq<u8>, now: u64, d: Due) -> nat
    decreases s.len(),
{
    if s.len() == 0 {
        0
    } else {
        count_due(s.drop_last(), dest, now, d) + if due_view(s.last(), dest, now) == d {
            1nat
        } else {
            0nat
        }
    }
}

proof fn lemma_count_bound(s: Seq<OutboundView>, dest: Seq<u8>, now: u64)
    ensures
        count_due(s, dest, now, Due::Expired) + count_due(s, dest, now, Due::Deferred) + count_due(
            s,
            dest,
            now,
            Due::Send,
        ) <= s.len(),
    decreases s.len(),
{
    if s.len() > 0 {
        lemma_count_bound(s.drop_last(), dest, now);
    }
}

/// Everything but the peer table is as it was.
pub open spec fn unchanged_but_peers(before: HomeServer, after: HomeServer) -> bool {
    &&& after.mailboxes() == before.mailboxes()
    &&& after.tokens() == before.tokens()
    &&& after.seen() == before.seen()
    &&& after.directory() == before.directory()
    &&& after.memberships() == before.memberships()
    &&& after.prekeys() == before.prekeys()
}

/// A peer's per-second window at `now`: a new second starts a new count.
pub open spec fn window_at(w: PeerWindow, now: u64) -> PeerWindow {
    if w.window_sec != now {
        PeerWindow { window_sec: now, window_ok: 0 }
    } else {
        w
    }
}

/// The replay window after key `enc` got number `seq` (a full window is
/// emptied first).
pub open spec fn recorded(m: Map<Seq<u8>, u64>, enc: Seq<u8>, seq: u64) -> Map<Seq<u8>, u64> {
    if m.dom().len() >= HPKE_ENC_WINDOW {
        Map::<Seq<u8>, u64>::empty().insert(enc, seq)
    } else {
        m.insert(enc, seq)
    }
}

/// What taking the next frame on the link to `peer` does: an unpinned,
/// refused or exhausted link gives an error and changes nothing; otherwise
/// the frame carries the link's next counter, which then moves on.
pub open spec fn frame_taken(
    before: HomeServer,
    after: HomeServer,
    peer: Seq<u8>,
    payload: S2sPayload,
    r: Result<S2sFrame, ServerError>,
) -> bool {
    &&& hop_keeps(before, after)
    &&& unchanged_but_peers(before, after)
    &&& if !before.peers().contains_key(peer) {
        r == Err::<S2sFrame, ServerError>(ServerError::NotPinned) && after.peers() == before.peers()
    } else {
        let p = before.peers()[peer];
        if p.refused {
            r == Err::<S2sFrame, ServerError>(ServerError::PeerRefused) && after.peers() == before.peers()
        } else if p.link.next_tx == u64::MAX {
            r == Err::<S2sFrame, ServerError>(ServerError::CounterGap) && after.peers() == before.peers()
        } else {
            &&& r == Ok::<S2sFrame, ServerError>(S2sFrame { counter: p.link.next_tx, payload })
            &&& after.peers() == before.peers().insert(
                peer,
                PeerState { link: LinkCounters { next_tx: (p.link.next_tx + 1) as u64, ..p.link }, ..p },
            )
        }
    }
}

/// What an envelope handed over by peer `from` does, the peer's state
/// being `p0` (the other peers as in `before`): too short, over the rate
/// this second, or a key handed over recently are answered at once; else
/// the envelope is opened and ingested, answered with its number (the key
/// then recorded for the peer), or `Fail`.
pub open spec fn ct_handled<F: Fn(Vec<u8>) -> Result<OpenedEnvelope, ServerError>>(
    before: HomeServer,
    after: HomeServer,
    from: Seq<u8>,
    p0: PeerState,
    ct: Seq<u8>,
    r: Result<S2sPayload, ServerError>,
    open: F,
) -> bool {
    let peers0 = before.peers().insert(from, p0);
    let w = window_at(p0.window, before.clock());
    let pw = PeerState { window: w, ..p0 };
    let enc = ct.take(ENCAP_LEN as int);
    if ct.len() < ENCAP_LEN {
        r == Ok::<S2sPayload, ServerError>(S2sPayload::Fail) && after.peers() == peers0 && unchanged_but_peers(
            before,
            after,
        )
    } else if w.window_ok >= PEER_RATE_PER_SEC {
        r == Ok::<S2sPayload, ServerError>(S2sPayload::Fail) && after.peers() == peers0.insert(from, pw)
            && unchanged_but_peers(before, after)
    } else if p0.seen.seen().contains_key(enc) {
        r == Ok::<S2sPayload, ServerError>(S2sPayload::Accepted(p0.seen.seen()[enc])) && after.peers()
            == peers0.insert(from, pw) && unchanged_but_peers(before, after)
    } else {
        match r {
            Ok(S2sPayload::Fail) => {
                &&& after.peers() == peers0.insert(from, pw)
                &&& after.mailboxes() == before.mailboxes()
                &&& after.seen() == before.seen()
                &&& after.directory() == before.directory()
            },
            Ok(S2sPayload::Accepted(s)) => {
                &&& exists|b: Vec<u8>, o: OpenedEnvelope|
                    #![trigger open.ensures((b,), Ok::<OpenedEnvelope, ServerError>(o))]
                    b@ == ct && open.ensures((b,), Ok::<OpenedEnvelope, ServerError>(o)) && ingested(
                        before,
                        after,
                        enc,
                        o.delivery_capability@,
                        o.idempotency_token@,
                        o.inner@,
                        o.ttl,
                        Ok(s),
                    )
                &&& after.peers().dom() == peers0.dom()
                &&& forall|k: Seq<u8>| k != from && #[trigger] peers0.contains_key(k) ==> after.peers()[k] == peers0[k]
                &&& after.peers()[from].sign_pk == p0.sign_pk
                &&& after.peers()[from].refused == p0.refused
                &&& after.peers()[from].link == p0.link
                &&& after.peers()[from].hello_done == p0.hello_done
                &&& after.peers()[from].window == (PeerWindow { window_ok: (w.window_ok + 1) as u32, ..w })
                &&& after.peers()[from].seen.seen() == recorded(p0.seen.seen(), enc, s)
                &&& after.directory() == before.directory()
            },
            _ => false,
        }
    }
}

/// What a frame from peer `from` does: an unpinned or refused peer is an
/// error; a counter at or below the last one received is a replay,
/// answered `Accepted(0)`; a gap is an error; the next counter is taken and
/// the payload handled (a greeting must name the two homes; answers come
/// back as they are; an envelope, see [`ct_handled`]).
pub open spec fn frame_accepted<F: Fn(Vec<u8>) -> Result<OpenedEnvelope, ServerError>>(
    before: HomeServer,
    after: HomeServer,
    from: Seq<u8>,
    frame: S2sFrame,
    r: Result<S2sPayload, ServerError>,
    open: F,
) -> bool {
    &&& hop_keeps(before, after)
    &&& if !before.peers().contains_key(from) {
        r == Err::<S2sPayload, ServerError>(ServerError::NotPinned) && after.peers() == before.peers()
            && unchanged_but_peers(before, after)
    } else {
        let p = before.peers()[from];
        let c = frame.counter;
        let pp = PeerState { link: LinkCounters { last_rx: c, ..p.link }, ..p };
        if p.refused {
            r == Err::<S2sPayload, ServerError>(ServerError::PeerRefused) && after.peers() == before.peers()
                && unchanged_but_peers(before, after)
        } else if c <= p.link.last_rx {
            r == Ok::<S2sPayload, ServerError>(S2sPayload::Accepted(0)) && after.peers() == before.peers()
                && unchanged_but_peers(before, after)
        } else if c != p.link.last_rx + 1 {
            r == Err::<S2sPayload, ServerError>(ServerError::CounterGap) && after.peers() == before.peers()
                && unchanged_but_peers(before, after)
        } else {
            match frame.payload {
                S2sPayload::Ciphertext(ct) => ct_handled(before, after, from, pp, ct@, r, open),
                S2sPayload::Hello { sender, receiver } => {
                    &&& r == if sender@ == from && receiver@ == before.id() {
                        Ok::<S2sPayload, ServerError>(S2sPayload::Empty)
                    } else {
                        Err::<S2sPayload, ServerError>(ServerError::HelloMismatch)
                    }
                    &&& after.peers() == before.peers().insert(from, pp)
                    &&& unchanged_but_peers(before, after)
                },
                other => {
                    &&& r == Ok::<S2sPayload, ServerError>(other)
                    &&& after.peers() == before.peers().insert(from, pp)
                    &&& unchanged_but_peers(before, after)
                },
            }
        }
    }
}

/// What every function of the hop keeps: the homes' ids and clocks, the
/// mailboxes of the home that sends, and the queues.
pub open spec fn hop_keeps(before: HomeServer, after: HomeServer) -> bool {
    &&& after.wf()
    &&& after.id() == before.id()
    &&& after.clock() == before.clock()
    &&& after.limits() == before.limits()
    &&& after.outbound() == before.outbound()
    &&& after.peers().dom() == before.peers().dom()
    &&& forall|k: Seq<u8>| #[trigger] before.peers().contains_key(k) ==> after.peers()[k].refused
        == before.peers()[k].refused
}

impl HomeServer {
    /// Whether every mailbox can take a row of `n` more bytes under a new
    /// number.
    fn room_for(&self, n: usize) -> (r: bool)
        requires
            self.wf(),
        ensures
            r == forall|k: Seq<u8>| #[trigger] self.mailboxes().contains_key(k) ==> self.mailboxes()[k].next_seq()
                < u64::MAX && self.mailboxes()[k].bytes() + n <= u64::MAX,
    {
        let len = self.mailboxes.len();
        let mut i: usize = 0;
        while i < len
            invariant
                len == self.mailboxes.values().len(),
                self.wf(),
                i <= len,
                forall|j: int| 0 <= j < i ==> (#[trigger] self.mailboxes.values()[j]).next_seq() < u64::MAX
                    && self.mailboxes.values()[j].bytes() + n <= u64::MAX,
            decreases len - i,
        {
            let m = self.mailboxes.value_at(i);
            if m.next_number() == u64::MAX || m.size_bytes() > u64::MAX - (n as u64) {
                proof {
                    self.mailboxes.lemma_key_at(i as int);
                    let k = self.mailboxes.key_at(i as int);
                    assert(self.mailboxes().contains_key(k));
                }
                return false;
            }
            i = i + 1;
        }
        proof {
            assert forall|k: Seq<u8>| #[trigger] self.mailboxes().contains_key(k) implies self.mailboxes()[k].next_seq()
                < u64::MAX && self.mailboxes()[k].bytes() + n <= u64::MAX by {
                let j = self.mailboxes.lemma_key_of(k);
            }
        }
        true
    }

    /// Takes the peer `peer` out of the table (to change it and put it back).
    fn take_peer(&mut self, peer: &[u8; KEY_LEN]) -> (r: Option<PeerState>)
        requires
            old(self).wf(),
        ensures
            old(self).peers().contains_key(peer@) ==> r == Some(old(self).peers()[peer@]) && r->0.seen.wf(),
            !old(self).peers().contains_key(peer@) ==> r is None,
            final(self).peers() == old(self).peers().remove(peer@),
            final(self).peers.wf(),
            forall|k: Seq<u8>| #[trigger] final(self).peers.map().contains_key(k) ==> final(self).peers.map()[k].seen.wf(),
            final(self).now == old(self).now,
            final(self).server_id == old(self).server_id,
            final(self).limits == old(self).limits,
            final(self).mailboxes == old(self).mailboxes,
            final(self).directory == old(self).directory,
            final(self).memberships == old(self).memberships,
            final(self).tokens == old(self).tokens,
            final(self).prekeys == old(self).prekeys,
            final(self).seen == old(self).seen,
            final(self).outbound == old(self).outbound,
    {
        let ghost before = self.peers.map();
        let r = self.peers.remove(peer);
        proof {
            assert forall|k: Seq<u8>| #[trigger] self.peers.map().contains_key(k) implies self.peers.map()[k].seen.wf() by {
                assert(before.contains_key(k));
            }
        }
        r
    }

    /// Puts a peer (back) into the table.
    fn put_peer(&mut self, peer: [u8; KEY_LEN], p: PeerState)
        requires
            old(self).peers.wf(),
            forall|k: Seq<u8>| #[trigger] old(self).peers.map().contains_key(k) ==> old(self).peers.map()[k].seen.wf(),
            p.seen.wf(),
        ensures
            final(self).peers() == old(self).peers().insert(peer@, p),
            final(self).peers.wf(),
            forall|k: Seq<u8>| #[trigger] final(self).peers.map().contains_key(k) ==> final(self).peers.map()[k].seen.wf(),
            final(self).now == old(self).now,
            final(self).server_id == old(self).server_id,
            final(self).limits == old(self).limits,
            final(self).mailboxes == old(self).mailboxes,
            final(self).directory == old(self).directory,
            final(self).memberships == old(self).memberships,
            final(self).tokens == old(self).tokens,
            final(self).prekeys == old(self).prekeys,
            final(self).seen == old(self).seen,
            final(self).outbound == old(self).outbound,
    {
        let ghost before = self.peers.map();
        self.peers.insert(peer, p);
        proof {
            assert forall|k: Seq<u8>| #[trigger] self.peers.map().contains_key(k) implies self.peers.map()[k].seen.wf() by {
                if k != peer@ {
                    assert(before.contains_key(k));
                }
            }
        }
    }
}

/// Starts the link to `peer` over: no frame received, counter 1 next, no
/// greeting.
fn reset_peer_link(home: &mut HomeServer, peer: &[u8; KEY_LEN])
    requires
        old(home).wf(),
    ensures
        hop_keeps(*old(home), *final(home)),
        unchanged_but_peers(*old(home), *final(home)),
        old(home).peers().contains_key(peer@) ==> final(home).peers() == old(home).peers().insert(
            peer@,
            PeerState {
                link: LinkCounters { last_rx: 0, next_tx: 1 },
                hello_done: false,
                ..old(home).peers()[peer@]
            },
        ),
        !old(home).peers().contains_key(peer@) ==> final(home).peers() == old(home).peers(),
{
    if let Some(mut p) = home.take_peer(peer) {
        reset_link(&mut p.link);
        p.hello_done = false;
        home.put_peer(*peer, p);
        proof {
            assert(home.peers().dom() =~= old(home).peers().dom());
        }
    } else {
        assert(home.peers() =~= old(home).peers());
    }
}

/// The next frame on the link to `peer`, carrying `payload`.
fn take_frame(home: &mut HomeServer, peer: &[u8; KEY_LEN], payload: S2sPayload) -> (r: Result<S2sFrame, ServerError>)
    requires
        old(home).wf(),
    ensures
        frame_taken(*old(home), *final(home), peer@, payload, r),
{
    let mut p = match home.take_peer(peer) {
        Some(p) => p,
        None => {
            assert(home.peers() =~= old(home).peers());
            return Err(ServerError::NotPinned);
        },
    };
    if p.refused || p.link.next_tx == u64::MAX {
        let refused = p.refused;
        home.put_peer(*peer, p);
        proof {
            assert(home.peers() =~= old(home).peers());
        }
        return Err(if refused {
            ServerError::PeerRefused
        } else {
            ServerError::CounterGap
        });
    }
    let counter = take_counter(&mut p.link);
    let ghost pv = p;
    home.put_peer(*peer, p);
    proof {
        assert(home.peers() =~= old(home).peers().insert(peer@, pv));
        assert(home.peers().dom() =~= old(home).peers().dom());
    }
    Ok(S2sFrame { counter, payload })
}

/// An envelope handed over by a peer: answered `Fail` when it is too short,
/// when the peer is over its rate this second, or when it cannot be opened
/// or appended; a key the peer handed over recently is answered with the
/// number it got then.
fn handle_ciphertext<F: Fn(Vec<u8>) -> Result<OpenedEnvelope, ServerError>>(
    home: &mut HomeServer,
    from: &[u8; KEY_LEN],
    ct: &Vec<u8>,
    open: &F,
) -> (r: Result<S2sPayload, ServerError>)
    requires
        old(home).wf(),
        forall|b: Vec<u8>| #[trigger] open.requires((b,)),
    ensures
        hop_keeps(*old(home), *final(home)),
        !old(home).peers().contains_key(from@) ==> (ct@.len() < ENCAP_LEN ==> r == Ok::<S2sPayload, ServerError>(
            S2sPayload::Fail,
        )) && (ct@.len() >= ENCAP_LEN ==> r == Err::<S2sPayload, ServerError>(ServerError::NotPinned))
            && final(home).peers() == old(home).peers() && unchanged_but_peers(*old(home), *final(home)),
        old(home).peers().contains_key(from@) ==> ct_handled(
            *old(home),
            *final(home),
            from@,
            old(home).peers()[from@],
            ct@,
            r,
            *open,
        ),
{
    if ct.len() < ENCAP_LEN {
        proof {
            if old(home).peers().contains_key(from@) {
                assert(old(home).peers().insert(from@, old(home).peers()[from@]) =~= old(home).peers());
            }
        }
        return Ok(S2sPayload::Fail);
    }
    let mut enc = [0u8; KEY_LEN];
    let mut i: usize = 0;
    while i < KEY_LEN
        invariant
            i <= KEY_LEN,
            ct@.len() >= ENCAP_LEN,
            forall|j: int| 0 <= j < i ==> enc@[j] == ct@[j],
        decreases KEY_LEN - i,
    {
        enc[i] = ct[i];
        i = i + 1;
    }
    assert(enc@ =~= ct@.take(ENCAP_LEN as int));
    let now = home.now;
    let mut p = match home.take_peer(from) {
        Some(p) => p,
        None => {
            assert(home.peers() =~= old(home).peers());
            return Err(ServerError::NotPinned);
        },
    };
    let ghost p0 = p;
    let ghost peers0 = old(home).peers();
    assert(peers0.insert(from@, p0) =~= peers0);
    if !window_allows(&mut p.window, now) {
        let ghost pw = p;
        home.put_peer(*from, p);
        proof {
            assert(home.peers() =~= peers0.insert(from@, pw));
            assert(home.peers().dom() =~= old(home).peers().dom());
        }
        return Ok(S2sPayload::Fail);
    }
    if let Some(seq) = p.seen.lookup(&enc) {
        let ghost pw = p;
        home.put_peer(*from, p);
        proof {
            assert(home.peers() =~= peers0.insert(from@, pw));
            assert(home.peers().dom() =~= old(home).peers().dom());
        }
        return Ok(S2sPayload::Accepted(seq));
    }
    let ghost pw = p;
    home.put_peer(*from, p);
    let ghost mid = *home;
    proof {
        assert(home.peers() =~= peers0.insert(from@, pw));
        assert(home.peers().dom() =~= old(home).peers().dom());
    }
    let arg = crate::ids::array_to_vec(ct.as_slice());
    let ghost argv = arg;
    let opened = open(arg);
    let o = match opened {
        Ok(o) => o,
        Err(_) => {
            return Ok(S2sPayload::Fail);
        },
    };
    let ghost ov = o;
    if !home.room_for(o.inner.len()) {
        return Ok(S2sPayload::Fail);
    }
    let seq = match home.ingest_opened(enc, &o.delivery_capability, o.idempotency_token, o.inner, o.ttl) {
        Ok(seq) => seq,
        Err(_) => {
            return Ok(S2sPayload::Fail);
        },
    };
    let ghost after_ingest = *home;
    proof {
        assert(ingested(mid, after_ingest, enc@, ov.delivery_capability@, ov.idempotency_token@, ov.inner@, ov.ttl, Ok(seq)));
        lemma_ingested_rebase(mid, *old(home), after_ingest, enc@, ov.delivery_capability@, ov.idempotency_token@, ov.inner@, ov.ttl, Ok(seq));
    }
    let mut p = match home.take_peer(from) {
        Some(p) => p,
        None => {
            return Ok(S2sPayload::Accepted(seq));
        },
    };
    if p.window.window_ok < PEER_RATE_PER_SEC {
        window_count(&mut p.window);
    }
    p.seen.record(enc, seq);
    let ghost pf = p;
    home.put_peer(*from, p);
    proof {
        assert(home.peers() =~= after_ingest.peers().insert(from@, pf));
        assert(home.peers().dom() =~= old(home).peers().dom());
        lemma_ingested_after(*old(home), after_ingest, *home, enc@, ov.delivery_capability@, ov.idempotency_token@, ov.inner@, ov.ttl, Ok(seq));
        assert(argv@ == ct@);
        assert(open.ensures((argv,), Ok::<OpenedEnvelope, ServerError>(ov)));
    }
    Ok(S2sPayload::Accepted(seq))
}

/// Ingesting depends on a home only through its mailboxes, tokens, replay
/// window, clock and limits.
proof fn lemma_ingested_rebase(
    a: HomeServer,
    b: HomeServer,
    after: HomeServer,
    enc: Seq<u8>,
    token: Seq<u8>,
    idem: Seq<u8>,
    inner: Seq<u8>,
    ttl: TtlBucket,
    r: Result<u64, ServerError>,
)
    requires
        ingested(a, after, enc, token, idem, inner, ttl, r),
        unchanged_but_peers(b, a),
        a.clock() == b.clock(),
        a.limits() == b.limits(),
    ensures
        ingested(b, after, enc, token, idem, inner, ttl, r),
{
}

/// An ingest outcome stays true of a later state that differs only in its
/// peer table.
proof fn lemma_ingested_after(
    before: HomeServer,
    a: HomeServer,
    b: HomeServer,
    enc: Seq<u8>,
    token: Seq<u8>,
    idem: Seq<u8>,
    inner: Seq<u8>,
    ttl: TtlBucket,
    r: Result<u64, ServerError>,
)
    requires
        ingested(before, a, enc, token, idem, inner, ttl, r),
        unchanged_but_peers(a, b),
    ensures
        ingested(before, b, enc, token, idem, inner, ttl, r),
{
}

/// A frame from peer `from`: a replayed counter is answered `Ok(0)`, a gap
/// is an error, a greeting must name the two homes, answers come back as
/// they are, and an envelope is handed to [`handle_ciphertext`].
fn accept_frame<F: Fn(Vec<u8>) -> Result<OpenedEnvelope, ServerError>>(
    home: &mut HomeServer,
    from: &[u8; KEY_LEN],
    frame: &S2sFrame,
    open: &F,
) -> (r: Result<S2sPayload, ServerError>)
    requires
        old(home).wf(),
        forall|b: Vec<u8>| #[trigger] open.requires((b,)),
    ensures
        frame_accepted(*old(home), *final(home), from@, *frame, r, *open),
{
    let mut p = match home.take_peer(from) {
        Some(p) => p,
        None => {
            assert(home.peers() =~= old(home).peers());
            return Err(ServerError::NotPinned);
        },
    };
    if p.refused {
        home.put_peer(*from, p);
        proof {
            assert(home.peers() =~= old(home).peers());
        }
        return Err(ServerError::PeerRefused);
    }
    let incoming = accept_counter(&mut p.link, frame.counter);
    let ghost pp = p;
    home.put_peer(*from, p);
    let ghost mid = *home;
    proof {
        assert(home.peers() =~= old(home).peers().insert(from@, pp));
        assert(home.peers().dom() =~= old(home).peers().dom());
        if frame.counter <= old(home).peers()[from@].link.last_rx || frame.counter != old(home).peers()[from@].link.last_rx + 1 {
            assert(pp == old(home).peers()[from@]);
            assert(home.peers() =~= old(home).peers());
        }
    }
    match incoming {
        Err(e) => Err(e),
        Ok(Incoming::Replay) => Ok(S2sPayload::Accepted(0)),
        Ok(Incoming::Fresh) => match &frame.payload {
            S2sPayload::Hello { sender, receiver } => {
                if !same_id(sender, from) || !same_id(receiver, &home.server_id) {
                    Err(ServerError::HelloMismatch)
                } else {
                    Ok(S2sPayload::Empty)
                }
            },
            S2sPayload::Accepted(n) => Ok(S2sPayload::Accepted(*n)),
            S2sPayload::Fail => Ok(S2sPayload::Fail),
            S2sPayload::Empty => Ok(S2sPayload::Empty),
            S2sPayload::Ciphertext(ct) => {
                let r = handle_ciphertext(home, from, ct, open);
                proof {
                    assert(mid.peers()[from@] == pp);
                    assert(mid.peers().insert(from@, pp) =~= old(home).peers().insert(from@, pp));
                    lemma_ct_handled_rebase(mid, *old(home), *home, from@, pp, ct@, r, *open);
                }
                r
            },
        },
    }
}

/// Handling an envelope depends on the home it starts from only through
/// the peer table with the sender's state put in, and what ingesting reads.
proof fn lemma_ct_handled_rebase<F: Fn(Vec<u8>) -> Result<OpenedEnvelope, ServerError>>(
    a: HomeServer,
    b: HomeServer,
    after: HomeServer,
    from: Seq<u8>,
    p0: PeerState,
    ct: Seq<u8>,
    r: Result<S2sPayload, ServerError>,
    open: F,
)
    requires
        ct_handled(a, after, from, p0, ct, r, open),
        a.peers().insert(from, p0) == b.peers().insert(from, p0),
        unchanged_but_peers(b, a),
        a.clock() == b.clock(),
        a.limits() == b.limits(),
    ensures
        ct_handled(b, after, from, p0, ct, r, open),
{
    let enc = ct.take(ENCAP_LEN as int);
    let w = window_at(p0.window, a.clock());
    if ct.len() >= ENCAP_LEN && w.window_ok < PEER_RATE_PER_SEC && !p0.seen.seen().contains_key(enc) {
        if let Ok(S2sPayload::Accepted(s)) = r {
            let (bv, o) = choose|bv: Vec<u8>, o: OpenedEnvelope|
                #![trigger open.ensures((bv,), Ok::<OpenedEnvelope, ServerError>(o))]
                bv@ == ct && open.ensures((bv,), Ok::<OpenedEnvelope, ServerError>(o)) && ingested(
                    a,
                    after,
                    enc,
                    o.delivery_capability@,
                    o.idempotency_token@,
                    o.inner@,
                    o.ttl,
                    Ok(s),
                );
            lemma_ingested_rebase(a, b, after, enc, o.delivery_capability@, o.idempotency_token@, o.inner@, o.ttl, Ok(s));
        }
    }
}

/// What greeting both ways does from the homes `f0` (sending) and `t0`:
/// each side takes a greeting frame for the other, `t0` accepts the one
/// from `f0`, `f0` the one from `t0`, and both mark the link greeted; the
/// first step that fails ends it with its error, the states as that step
/// left them.
spec fn hello_chain<F: Fn(Vec<u8>) -> Result<OpenedEnvelope, ServerError>>(
    f0: HomeServer,
    t0: HomeServer,
    fz: HomeServer,
    tz: HomeServer,
    r: Result<(), ServerError>,
    open: F,
) -> bool {
    let ha = S2sPayload::Hello { sender: f0.server_id, receiver: t0.server_id };
    let hb = S2sPayload::Hello { sender: t0.server_id, receiver: f0.server_id };
    exists|f1: HomeServer, ra: Result<S2sFrame, ServerError>|
        #![trigger frame_taken(f0, f1, t0.id(), ha, ra)]
        frame_taken(f0, f1, t0.id(), ha, ra) && match ra {
            Err(e) => r == Err::<(), ServerError>(e) && fz == f1 && tz == t0,
            Ok(fa) => exists|t1: HomeServer, rb: Result<S2sFrame, ServerError>|
                #![trigger frame_taken(t0, t1, f0.id(), hb, rb)]
                frame_taken(t0, t1, f0.id(), hb, rb) && match rb {
                    Err(e) => r == Err::<(), ServerError>(e) && fz == f1 && tz == t1,
                    Ok(fb) => exists|t2: HomeServer, x: Result<S2sPayload, ServerError>|
                        #![trigger frame_accepted(t1, t2, f0.id(), fa, x, open)]
                        frame_accepted(t1, t2, f0.id(), fa, x, open) && match x {
                            Err(e) => r == Err::<(), ServerError>(e) && fz == f1 && tz == t2,
                            Ok(_) => exists|f2: HomeServer, y: Result<S2sPayload, ServerError>|
                                #![trigger frame_accepted(f1, f2, t0.id(), fb, y, open)]
                                frame_accepted(f1, f2, t0.id(), fb, y, open) && match y {
                                    Err(e) => r == Err::<(), ServerError>(e) && fz == f2 && tz == t2,
                                    Ok(_) => {
                                        &&& r is Ok
                                        &&& fz.peers() == f2.peers().insert(
                                            t0.id(),
                                            PeerState { hello_done: true, ..f2.peers()[t0.id()] },
                                        )
                                        &&& unchanged_but_peers(f2, fz)
                                        &&& hop_keeps(f2, fz)
                                        &&& tz.peers() == t2.peers().insert(
                                            f0.id(),
                                            PeerState { hello_done: true, ..t2.peers()[f0.id()] },
                                        )
                                        &&& unchanged_but_peers(t2, tz)
                                        &&& hop_keeps(t2, tz)
                                    },
                                },
                        },
                },
        }
}

/// Marks the link to `peer` greeted.
fn mark_greeted(home: &mut HomeServer, peer: &[u8; KEY_LEN])
    requires
        old(home).wf(),
        old(home).peers().contains_key(peer@),
    ensures
        final(home).peers() == old(home).peers().insert(peer@, PeerState { hello_done: true, ..old(home).peers()[peer@] }),
        unchanged_but_peers(*old(home), *final(home)),
        hop_keeps(*old(home), *final(home)),
{
    if let Some(mut p) = home.take_peer(peer) {
        p.hello_done = true;
        let ghost pv = p;
        home.put_peer(*peer, p);
        proof {
            assert(home.peers() =~= old(home).peers().insert(peer@, pv));
            assert(home.peers().dom() =~= old(home).peers().dom());
        }
    }
}

/// Greets both ways unless both sides already did (see [`hello_chain`]).
fn ensure_hello<F: Fn(Vec<u8>) -> Result<OpenedEnvelope, ServerError>>(
    from: &mut HomeServer,
    to: &mut HomeServer,
    open: &F,
) -> (r: Result<(), ServerError>)
    requires
        old(from).wf(),
        old(to).wf(),
        forall|b: Vec<u8>| #[trigger] open.requires((b,)),
    ensures
        hop_keeps(*old(from), *final(from)),
        hop_keeps(*old(to), *final(to)),
        final(from).mailboxes() == old(from).mailboxes(),
        final(to).mailboxes() == old(to).mailboxes(),
        ({
            let a_done = old(from).peers().contains_key(old(to).id()) && old(from).peers()[old(to).id()].hello_done;
            let b_done = old(to).peers().contains_key(old(from).id()) && old(to).peers()[old(from).id()].hello_done;
            &&& a_done && b_done ==> r is Ok && *final(from) == *old(from) && *final(to) == *old(to)
            &&& !(a_done && b_done) ==> hello_chain(*old(from), *old(to), *final(from), *final(to), r, *open)
        }),
{
    let ghost f0 = *from;
    let ghost t0 = *to;
    let a_id = from.server_id;
    let b_id = to.server_id;
    let a_needs = match from.peers.get(&b_id) {
        Some(p) => !p.hello_done,
        None => true,
    };
    let b_needs = match to.peers.get(&a_id) {
        Some(p) => !p.hello_done,
        None => true,
    };
    if !a_needs && !b_needs {
        return Ok(());
    }
    let ghost ha = S2sPayload::Hello { sender: a_id, receiver: b_id };
    let ghost hb = S2sPayload::Hello { sender: b_id, receiver: a_id };
    let ra = take_frame(from, &b_id, S2sPayload::Hello { sender: a_id, receiver: b_id });
    let ghost f1 = *from;
    let ghost rav = ra;
    assert(frame_taken(f0, f1, t0.id(), ha, rav));
    let a_hello = match ra {
        Ok(f) => f,
        Err(e) => {
            return Err(e);
        },
    };
    let rb = take_frame(to, &a_id, S2sPayload::Hello { sender: b_id, receiver: a_id });
    let ghost t1 = *to;
    let ghost rbv = rb;
    assert(frame_taken(t0, t1, f0.id(), hb, rbv));
    let b_hello = match rb {
        Ok(f) => f,
        Err(e) => {
            return Err(e);
        },
    };
    let x = accept_frame(to, &a_id, &a_hello, open);
    let ghost t2 = *to;
    let ghost xv = x;
    assert(frame_accepted(t1, t2, f0.id(), a_hello, xv, *open));
    if let Err(e) = x {
        return Err(e);
    }
    let y = accept_frame(from, &b_id, &b_hello, open);
    let ghost f2 = *from;
    let ghost yv = y;
    assert(frame_accepted(f1, f2, t0.id(), b_hello, yv, *open));
    if let Err(e) = y {
        return Err(e);
    }
    mark_greeted(from, &b_id);
    mark_greeted(to, &a_id);
    Ok(())
}

/// What handing one envelope to the peer does from the homes `f0`
/// (sending) and `t0`: `f0` takes a frame carrying it, `t0` accepts that
/// frame and takes one carrying its answer, and `f0` accepts the answer; an
/// answer `Fail` is [`ServerError::Denied`]. The first step that fails ends
/// it with its error, the states as that step left them.
pub open spec fn forward_chain<F: Fn(Vec<u8>) -> Result<OpenedEnvelope, ServerError>>(
    f0: HomeServer,
    t0: HomeServer,
    fz: HomeServer,
    tz: HomeServer,
    outer: Seq<u8>,
    r: Result<(), ServerError>,
    open: F,
) -> bool {
    exists|v: Vec<u8>, f1: HomeServer, rf: Result<S2sFrame, ServerError>|
        #![trigger frame_taken(f0, f1, t0.id(), S2sPayload::Ciphertext(v), rf)]
        v@ == outer && frame_taken(f0, f1, t0.id(), S2sPayload::Ciphertext(v), rf) && match rf {
            Err(e) => r == Err::<(), ServerError>(e) && fz == f1 && tz == t0,
            Ok(fr) => exists|t1: HomeServer, rr: Result<S2sPayload, ServerError>|
                #![trigger frame_accepted(t0, t1, f0.id(), fr, rr, open)]
                frame_accepted(t0, t1, f0.id(), fr, rr, open) && match rr {
                    Err(e) => r == Err::<(), ServerError>(e) && fz == f1 && tz == t1,
                    Ok(reply) => exists|t2: HomeServer, rt: Result<S2sFrame, ServerError>|
                        #![trigger frame_taken(t1, t2, f0.id(), reply, rt)]
                        frame_taken(t1, t2, f0.id(), reply, rt) && match rt {
                            Err(e) => r == Err::<(), ServerError>(e) && fz == f1 && tz == t2,
                            Ok(fr2) => exists|f2: HomeServer, ra: Result<S2sPayload, ServerError>|
                                #![trigger frame_accepted(f1, f2, t0.id(), fr2, ra, open)]
                                frame_accepted(f1, f2, t0.id(), fr2, ra, open) && fz == f2 && tz == t2 && match ra {
                                    Err(e) => r == Err::<(), ServerError>(e),
                                    Ok(S2sPayload::Fail) => r == Err::<(), ServerError>(ServerError::Denied),
                                    Ok(_) => r is Ok,
                                },
                        },
                },
        }
}

/// Hands one envelope to the peer and reads its answer (see
/// [`forward_chain`]).
fn forward_one<F: Fn(Vec<u8>) -> Result<OpenedEnvelope, ServerError>>(
    from: &mut HomeServer,
    to: &mut HomeServer,
    outer: &Vec<u8>,
    open: &F,
) -> (r: Result<(), ServerError>)
    requires
        old(from).wf(),
        old(to).wf(),
        forall|b: Vec<u8>| #[trigger] open.requires((b,)),
    ensures
        hop_keeps(*old(from), *final(from)),
        hop_keeps(*old(to), *final(to)),
        final(from).mailboxes() == old(from).mailboxes(),
        forward_chain(*old(from), *old(to), *final(from), *final(to), outer@, r, *open),
{
    let ghost f0 = *from;
    let ghost t0 = *to;
    let dest = to.server_id;
    let src = from.server_id;
    let v = crate::ids::array_to_vec(outer.as_slice());
    let ghost vv = v;
    let rf = take_frame(from, &dest, S2sPayload::Ciphertext(v));
    let ghost f1 = *from;
    let ghost rfv = rf;
    assert(frame_taken(f0, f1, t0.id(), S2sPayload::Ciphertext(vv), rfv));
    let frame = match rf {
        Ok(f) => f,
        Err(e) => {
            return Err(e);
        },
    };
    let rr = accept_frame(to, &src, &frame, open);
    let ghost t1 = *to;
    let ghost rrv = rr;
    assert(frame_accepted(t0, t1, f0.id(), frame, rrv, *open));
    let reply = match rr {
        Ok(p) => p,
        Err(e) => {
            return Err(e);
        },
    };
    let ghost replyv = reply;
    let rt = take_frame(to, &src, reply);
    let ghost t2 = *to;
    let ghost rtv = rt;
    assert(frame_taken(t1, t2, f0.id(), replyv, rtv));
    let reply_frame = match rt {
        Ok(f) => f,
        Err(e) => {
            return Err(e);
        },
    };
    let ra = accept_frame(from, &dest, &reply_frame, open);
    let ghost f2 = *from;
    let ghost rav = ra;
    assert(frame_accepted(f1, f2, t0.id(), reply_frame, rav, *open));
    match ra {
        Err(e) => Err(e),
        Ok(S2sPayload::Fail) => Err(ServerError::Denied),
        Ok(_) => Ok(()),
    }
}

/// Sends the envelopes `from` has queued for `to` over an in-process link:
/// a refused or unpinned peer stops the pump before anything is sent; the
/// link is greeted first when needed. Then each row for `to`, in order, is
/// dropped when older than the queue's age bound, left when its next
/// attempt is later, and otherwise handed over: delivered and refused rows
/// leave the queue, other failures stay with a longer retry delay (after a
/// counter gap both ends of the link start over). `open` opens an envelope
/// with `to`'s HPKE key.
pub fn pump<F: Fn(Vec<u8>) -> Result<OpenedEnvelope, ServerError>>(
    from: &mut HomeServer,
    to: &mut HomeServer,
    open: &F,
) -> (r: Result<PumpStats, ServerError>)
    requires
        old(from).wf(),
        old(to).wf(),
        forall|b: Vec<u8>| #[trigger] open.requires((b,)),
    ensures
        final(from).wf(),
        final(to).wf(),
        final(from).id() == old(from).id(),
        final(to).id() == old(to).id(),
        final(from).clock() == old(from).clock(),
        final(from).mailboxes() == old(from).mailboxes(),
        final(to).outbound() == old(to).outbound(),
        ({
            let dest = old(to).id();
            let src = old(from).id();
            let refused = (old(from).peers().contains_key(dest) && old(from).peers()[dest].refused) || (old(
                to,
            ).peers().contains_key(src) && old(to).peers()[src].refused);
            let pinned = old(from).peers().contains_key(dest) && old(to).peers().contains_key(src);
            &&& refused ==> r == Err::<PumpStats, ServerError>(ServerError::PeerRefused)
            &&& !refused && !pinned ==> r == Err::<PumpStats, ServerError>(ServerError::NotPinned)
            &&& r is Err ==> final(from).outbound() == old(from).outbound() && final(to).mailboxes() == old(
                to,
            ).mailboxes()
            &&& r matches Ok(stats) ==> {
                let out = old(from).outbound();
                let now = old(from).clock();
                let after = final(from).outbound();
                &&& others(after, dest) == others(out, dest)
                &&& forall|j: int| 0 <= j < after.len() && (#[trigger] after[j]).0 == dest ==> due_view(after[j], dest, now)
                    != Due::Expired
                &&& stats.expired == count_due(out, dest, now, Due::Expired)
                &&& stats.deferred == count_due(out, dest, now, Due::Deferred)
                &&& stats.delivered + stats.failed == count_due(out, dest, now, Due::Send)
            }
        }),
{
    let dest = to.server_id;
    let src = from.server_id;
    if from.peer_refused(&dest) || to.peer_refused(&src) {
        return Err(ServerError::PeerRefused);
    }
    if !from.peers.contains(&dest) || !to.peers.contains(&src) {
        return Err(ServerError::NotPinned);
    }
    ensure_hello(from, to, open)?;
    let now = from.now;
    let mut stats = PumpStats { delivered: 0, failed: 0, deferred: 0, expired: 0 };
    let ghost out = old(from).outbound();
    let ghost mut k: int = 0;
    let ghost mut kept: Seq<OutboundView> = seq![];
    let mut i: usize = 0;
    let n0 = from.outbound.len();
    proof {
        assert(out.len() == n0);
        assert(out.take(0) =~= Seq::<OutboundView>::empty());
        assert(kept + out.skip(0) =~= out);
        lemma_count_bound(out, dest@, now);
    }
    while i < from.outbound.len()
        invariant
            from.wf(),
            to.wf(),
            from.server_id == src,
            to.server_id == dest,
            from.now == now,
            from.id() == old(from).id(),
            to.id() == old(to).id(),
            from.clock() == old(from).clock(),
            from.mailboxes() == old(from).mailboxes(),
            to.outbound() == old(to).outbound(),
            out == old(from).outbound(),
            dest@ == old(to).id(),
            now == old(from).clock(),
            0 <= k <= out.len(),
            i == kept.len(),
            from.outbound() == kept + out.skip(k),
            others(kept, dest@) == others(out.take(k), dest@),
            forall|j: int| 0 <= j < kept.len() && (#[trigger] kept[j]).0 == dest@ ==> due_view(kept[j], dest@, now)
                != Due::Expired,
            stats.expired == count_due(out.take(k), dest@, now, Due::Expired),
            stats.deferred == count_due(out.take(k), dest@, now, Due::Deferred),
            stats.delivered + stats.failed == count_due(out.take(k), dest@, now, Due::Send),
            count_due(out, dest@, now, Due::Expired) + count_due(out, dest@, now, Due::Deferred) + count_due(
                out,
                dest@,
                now,
                Due::Send,
            ) <= out.len(),
            out.len() <= usize::MAX,
            forall|b: Vec<u8>| #[trigger] open.requires((b,)),
        decreases out.len() - k,
    {
        let ghost row = out[k];
        proof {
            assert(from.outbound()[i as int] == row);
            assert(out.take(k + 1).drop_last() =~= out.take(k));
            assert(out.take(k + 1).last() == row);
            lemma_count_bound(out.take(k), dest@, now);
            lemma_count_prefix(out, k + 1, dest@, now);
        }
        let due = row_due(&from.outbound[i], &dest, now);
        assert(due == due_view(row, dest@, now));
        match due {
            Due::OtherPeer => {
                proof {
                    assert(kept.push(row) + out.skip(k + 1) =~= kept + out.skip(k));
                    assert(kept.push(row).drop_last() =~= kept);
                    kept = kept.push(row);
                    k = k + 1;
                }
                i = i + 1;
            },
            Due::Expired => {
                let ghost before = from.outbound@;
                from.outbound.remove(i);
                stats.expired = stats.expired + 1;
                proof {
                    lemma_views_remove(before, i as int);
                    assert((kept + out.skip(k)).remove(i as int) =~= kept + out.skip(k + 1));
                    k = k + 1;
                }
            },
            Due::Deferred => {
                stats.deferred = stats.deferred + 1;
                proof {
                    assert(kept.push(row) + out.skip(k + 1) =~= kept + out.skip(k));
                    assert(kept.push(row).drop_last() =~= kept);
                    kept = kept.push(row);
                    k = k + 1;
                }
                i = i + 1;
            },
            Due::Send => {
                let outer = crate::ids::array_to_vec(from.outbound[i].outer.as_slice());
                let sent = match forward_one(from, to, &outer, open) {
                    Ok(()) => Sent::Delivered,
                    Err(ServerError::Denied) => Sent::Refused,
                    Err(ServerError::PeerRefused) => Sent::Refused,
                    Err(ServerError::CounterGap) => {
                        reset_peer_link(from, &dest);
                        reset_peer_link(to, &src);
                        Sent::CounterGap
                    },
                    Err(_) => Sent::Failed,
                };
                let ghost before = from.outbound@;
                proof {
                    assert(from.outbound() == kept + out.skip(k));
                    assert(views_of(before).len() == before.len());
                    assert(views_of(before)[i as int] == outbound_view(&before[i as int]));
                    assert((kept + out.skip(k))[i as int] == row);
                }
                let mut rw = from.outbound.remove(i);
                let keep = settle(&mut rw, sent, now, &mut stats);
                if keep {
                    let ghost rv = outbound_view(&rw);
                    let ghost removed = from.outbound@;
                    from.outbound.insert(i, rw);
                    proof {
                        assert(rv.0 == row.0 && rv.2 == row.2);
                        lemma_views_remove(before, i as int);
                        lemma_views_insert(removed, i as int, rw);
                        assert((kept + out.skip(k)).remove(i as int) =~= kept + out.skip(k + 1));
                        assert((kept + out.skip(k + 1)).insert(i as int, rv) =~= kept.push(rv) + out.skip(k + 1));
                        assert(kept.push(rv).drop_last() =~= kept);
                        kept = kept.push(rv);
                        k = k + 1;
                    }
                    i = i + 1;
                } else {
                    proof {
                        lemma_views_remove(before, i as int);
                        assert((kept + out.skip(k)).remove(i as int) =~= kept + out.skip(k + 1));
                        k = k + 1;
                    }
                }
            },
        }
    }
    proof {
        assert(out.skip(k).len() == 0);
        assert(k == out.len());
        assert(out.take(k) =~= out);
        assert(kept + out.skip(k) =~= kept);
    }
    Ok(stats)
}

proof fn lemma_count_prefix(s: Seq<OutboundView>, k: int, dest: Seq<u8>, now: u64)
    requires
        0 <= k <= s.len(),
    ensures
        count_due(s.take(k), dest, now, Due::Expired) <= count_due(s, dest, now, Due::Expired),
        count_due(s.take(k), dest, now, Due::Deferred) <= count_due(s, dest, now, Due::Deferred),
        count_due(s.take(k), dest, now, Due::Send) <= count_due(s, dest, now, Due::Send),
    decreases s.len() - k,
{
    if k < s.len() {
        lemma_count_prefix(s, k + 1, dest, now);
        assert(s.take(k + 1).drop_last() =~= s.take(k));
    } else {
        assert(s.take(k) =~= s);
    }
}

/// A share token lets one envelope in: once an append with it stored a new
/// row, the token is spent, so any later append with it is denied and it
/// fetches no more prekeys.
pub proof fn law_share_token_single_use(
    h0: HomeServer,
    h1: HomeServer,
    h2: HomeServer,
    token: Seq<u8>,
    idem: Seq<u8>,
    inner: Seq<u8>,
    ttl: TtlBucket,
    seq: u64,
    idem2: Seq<u8>,
    inner2: Seq<u8>,
    ttl2: TtlBucket,
    r2: Result<u64, ServerError>,
    now: u64,
)
    requires
        last_match(h0.tokens(), token) matches Some(i) && h0.tokens()[i].1 is Share && idem_lookup(
            h0.mailboxes()[token_mailbox(h0.tokens()[i].1)].idem(),
            idem,
        ) is None,
        appended(h0, h1, token, idem, inner, ttl, Ok(seq)),
        appended(h1, h2, token, idem2, inner2, ttl2, r2),
    ensures
        r2 == Err::<u64, ServerError>(ServerError::Denied),
        last_match(h1.tokens(), token) matches Some(j) && !share_usable(h1.tokens()[j].1, now),
{
    let i = last_match(h0.tokens(), token)->0;
    lemma_last_match(h0.tokens(), token);
    let after_t = authorized(h0.tokens()[i].1, h0.clock()).1;
    let counted = h0.tokens().update(i, (token, after_t));
    lemma_last_match_kept(h0.tokens(), i, token, after_t);
    lemma_last_match_kept(counted, i, token, spent(after_t));
    assert(h1.tokens() == counted.update(i, (token, spent(after_t))));
    assert(h1.tokens()[i].1 == spent(after_t));
}

/// An envelope ingested again (the same encapsulated key) is answered with
/// the number it got the first time.
pub proof fn law_replayed_envelope_same_seq(
    h0: HomeServer,
    h1: HomeServer,
    h2: HomeServer,
    enc: Seq<u8>,
    token: Seq<u8>,
    idem: Seq<u8>,
    inner: Seq<u8>,
    ttl: TtlBucket,
    seq: u64,
    token2: Seq<u8>,
    idem2: Seq<u8>,
    inner2: Seq<u8>,
    ttl2: TtlBucket,
    r2: Result<u64, ServerError>,
)
    requires
        ingested(h0, h1, enc, token, idem, inner, ttl, Ok(seq)),
        ingested(h1, h2, enc, token2, idem2, inner2, ttl2, r2),
    ensures
        r2 == Ok::<u64, ServerError>(seq),
{
    assert(h1.seen().contains_key(enc) && h1.seen()[enc] == seq);
}

} // verus!
