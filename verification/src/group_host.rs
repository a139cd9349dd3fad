//! The group stream host on a home server: who may append to a group's
//! stream, the invites and pending joins that bring members in, the
//! attachment slots, and the stream's byte budget. It does not read MLS;
//! signatures are checked by the caller with the keys this host keeps, and
//! the outcome comes in with each request. Sealing the copies for each
//! member is the caller's too: an append hands back the targets.

use vstd::prelude::*;
use crate::keymap::{KeyMap, Expires, ct_eq_key, same_id, unexpired_map};
use crate::ids::KEY_LEN;
use crate::mailbox::{TtlBucket, ttl_secs_of, random_token};
use crate::server::ServerError;

verus! {

/// Most bytes a group stream holds.
pub const STREAM_MAX_BYTES: u64 = 2147483648;

/// Attachment bytes a group may reserve unless the host sets another
/// budget.
pub const GROUP_FILE_MAX_BYTES: u64 = 2147483648;

/// Longest a group stream object or attachment is kept.
pub const STREAM_MAX_AGE_SECS: u64 = 2592000;

/// Where a member's copies go: the member's delivery capability on its
/// home, and that home's HPKE key.
#[derive(Clone, Copy, Debug, PartialEq, Eq)]
pub struct FanoutTarget {
    pub delivery_capability: [u8; KEY_LEN],
    pub home_hpke_public: [u8; KEY_LEN],
}

/// A member credential for one group.
#[derive(Clone, Copy, Debug, PartialEq, Eq)]
pub struct MemberCred {
    pub credential_id: [u8; KEY_LEN],
    pub credential_secret: [u8; KEY_LEN],
}

#[derive(Clone, Copy, Debug, PartialEq, Eq)]
pub struct CreatedGroup {
    pub group_id: [u8; KEY_LEN],
    pub cred: MemberCred,
}

/// An accepted invite: the pending join and the credential reserved for it.
#[derive(Clone, Copy, Debug, PartialEq, Eq)]
pub struct PendingJoin {
    pub pending_id: [u8; KEY_LEN],
    pub cred: MemberCred,
    pub invitee_binding: Option<[u8; KEY_LEN]>,
}

/// A stream object's number and the members it is to be copied to.
#[derive(Debug)]
pub struct StreamAppend {
    pub seq: u64,
    pub targets: Vec<FanoutTarget>,
}

/// What the host keeps per credential.
#[derive(Clone, Copy, Debug, PartialEq, Eq)]
pub struct CredRecord {
    pub secret: [u8; KEY_LEN],
    pub live: bool,
    pub signing_pk: Option<[u8; KEY_LEN]>,
    pub fanout: Option<FanoutTarget>,
}

#[derive(Clone, Copy, Debug, PartialEq, Eq)]
pub struct StoredInvite {
    pub expires_at: u64,
    pub invitee_binding: Option<[u8; KEY_LEN]>,
}

#[derive(Clone, Copy, Debug, PartialEq, Eq)]
pub struct PendingRecord {
    pub cred: MemberCred,
    pub expires_at: u64,
}

impl Expires for StoredInvite {
    open spec fn expiry_spec(&self) -> u64 {
        self.expires_at
    }

    fn expiry(&self) -> (r: u64) {
        self.expires_at
    }
}

impl Expires for PendingRecord {
    open spec fn expiry_spec(&self) -> u64 {
        self.expires_at
    }

    fn expiry(&self) -> (r: u64) {
        self.expires_at
    }
}

/// A reserved attachment: its group, the credential that reserved it, the
/// exact size the upload must have, its expiry, and the bytes once
/// uploaded.
#[derive(Debug)]
pub struct FileSlot {
    pub group_id: [u8; KEY_LEN],
    pub owner: [u8; KEY_LEN],
    pub size: usize,
    pub expires_at: u64,
    pub bytes: Option<Vec<u8>>,
}

/// One group's stream.
pub struct GroupState {
    pub next_seq: u64,
    pub creds: KeyMap<CredRecord>,
    pub invites: KeyMap<StoredInvite>,
    pub pending: KeyMap<PendingRecord>,
    pub bytes: u64,
    /// Bytes of the attachments reserved in this group, counted apart from
    /// the stream.
    pub file_bytes: u64,
}

/// A group's maps are maps and its stream is within budget.
pub open spec fn group_ok(g: GroupState) -> bool {
    &&& g.creds.wf()
    &&& g.invites.wf()
    &&& g.pending.wf()
    &&& g.bytes <= STREAM_MAX_BYTES
}

/// A credential that may append: live, with the matching secret.
pub open spec fn live_member(g: GroupState, cred: MemberCred) -> bool {
    &&& g.creds.map().contains_key(cred.credential_id@)
    &&& g.creds.map()[cred.credential_id@].live
    &&& g.creds.map()[cred.credential_id@].secret@ == cred.credential_secret@
}

/// The members a stream object is copied to, in list order: live
/// credentials with a fan-out target.
pub open spec fn fanout_of(recs: Seq<CredRecord>) -> Seq<FanoutTarget>
    decreases recs.len(),
{
    if recs.len() == 0 {
        seq![]
    } else if recs.last().live && recs.last().fanout is Some {
        fanout_of(recs.drop_last()).push(recs.last().fanout->0)
    } else {
        fanout_of(recs.drop_last())
    }
}

/// The groups and attachment slots of a home.
pub struct GroupHost {
    now: u64,
    groups: KeyMap<GroupState>,
    files: KeyMap<FileSlot>,
    /// How many attachment bytes one group may reserve in all.
    pub file_budget: u64,
}

impl GroupHost {
    /// The host's clock, in Unix seconds.
    pub closed spec fn clock(self) -> u64 {
        self.now
    }

    pub fn now(&self) -> (r: u64)
        ensures
            r == self.clock(),
    {
        self.now
    }

    /// Sets the host's clock.
    pub fn set_now(&mut self, now: u64)
        ensures
            final(self).clock() == now,
            final(self).budget() == old(self).budget(),
            final(self).groups() == old(self).groups(),
            final(self).files() == old(self).files(),
            old(self).wf() ==> final(self).wf(),
    {
        self.now = now;
    }

    pub closed spec fn groups(self) -> Map<Seq<u8>, GroupState> {
        self.groups.map()
    }

    /// How many attachment bytes one group may reserve in all.
    pub closed spec fn budget(self) -> u64 {
        self.file_budget
    }

    pub closed spec fn files(self) -> Map<Seq<u8>, FileSlot> {
        self.files.map()
    }

    /// Every group is within its budget and every map is a map.
    pub closed spec fn wf(self) -> bool {
        &&& self.groups.wf()
        &&& self.files.wf()
        &&& forall|k: Seq<u8>| #[trigger] self.groups.map().contains_key(k) ==> group_ok(
            self.groups.map()[k],
        )
    }

    /// Whether `cred` may append to group `gid`.
    pub open spec fn authorized(self, gid: Seq<u8>, cred: MemberCred) -> bool {
        self.groups().contains_key(gid) && live_member(self.groups()[gid], cred)
    }

    pub fn new() -> (h: GroupHost)
        ensures
            h.wf(),
            h.clock() == 1700000000,
            h.groups() == Map::<Seq<u8>, GroupState>::empty(),
            h.files() == Map::<Seq<u8>, FileSlot>::empty(),
            h.budget() == GROUP_FILE_MAX_BYTES,
    {
        GroupHost {
            now: 1700000000,
            groups: KeyMap::new(),
            files: KeyMap::new(),
            file_budget: GROUP_FILE_MAX_BYTES,
        }
    }

    /// A new group with one live member: its signing key and fan-out
    /// target, and a random group id and credential. Refused with
    /// [`ServerError::Randomness`], changing nothing, when the operating
    /// system gives no random bytes.
    pub fn create_group(&mut self, signing_pk: [u8; KEY_LEN], fanout: FanoutTarget) -> (r: Result<
        CreatedGroup,
        ServerError,
    >)
        requires
            old(self).wf(),
        ensures
            final(self).wf(),
            r is Err ==> r == Err::<CreatedGroup, ServerError>(ServerError::Randomness) && *final(self)
                == *old(self),
            r matches Ok(c) ==> {
                &&& final(self).clock() == old(self).clock()
                &&& final(self).budget() == old(self).budget()
                &&& final(self).files() == old(self).files()
                &&& final(self).groups().dom() == old(self).groups().dom().insert(c.group_id@)
                &&& final(self).groups()[c.group_id@].file_bytes == 0
                &&& forall|k: Seq<u8>| k != c.group_id@ && #[trigger] old(self).groups().contains_key(k) ==> final(self).groups()[k] == old(self).groups()[k]
                &&& final(self).groups()[c.group_id@].next_seq == 1
                &&& final(self).groups()[c.group_id@].bytes == 0
                &&& final(self).groups()[c.group_id@].creds.map() == Map::<Seq<u8>, CredRecord>::empty().insert(
                    c.cred.credential_id@,
                    CredRecord {
                        secret: c.cred.credential_secret,
                        live: true,
                        signing_pk: Some(signing_pk),
                        fanout: Some(fanout),
                    },
                )
                &&& final(self).groups()[c.group_id@].invites.map() == Map::<Seq<u8>, StoredInvite>::empty()
                &&& final(self).groups()[c.group_id@].pending.map() == Map::<Seq<u8>, PendingRecord>::empty()
            },
    {
        let (group_id, credential_id, credential_secret) = match (random_token(), random_token(), random_token()) {
            (Some(g), Some(i), Some(k)) => (g, i, k),
            _ => {
                return Err(ServerError::Randomness);
            },
        };
        let cred = MemberCred { credential_id, credential_secret };
        let mut creds: KeyMap<CredRecord> = KeyMap::new();
        creds.insert(
            cred.credential_id,
            CredRecord {
                secret: cred.credential_secret,
                live: true,
                signing_pk: Some(signing_pk),
                fanout: Some(fanout),
            },
        );
        let g = GroupState {
            next_seq: 1,
            creds,
            invites: KeyMap::new(),
            pending: KeyMap::new(),
            bytes: 0,
            file_bytes: 0,
        };
        self.groups.insert(group_id, g);
        proof {
            assert forall|k: Seq<u8>| #[trigger] self.groups.map().contains_key(k) implies group_ok(
                self.groups.map()[k],
            ) by {
                if k != group_id@ {
                    assert(old(self).groups.map().contains_key(k));
                }
            }
            assert(self.groups().dom() =~= old(self).groups().dom().insert(group_id@));
        }
        Ok(CreatedGroup { group_id, cred })
    }

    /// Checks that `cred` is a live member of group `gid`, comparing the
    /// secret in constant time. Every failure is the same denial.
    pub fn authorize_live(&self, group_id: &[u8; KEY_LEN], cred: &MemberCred) -> (r: Result<
        (),
        ServerError,
    >)
        requires
            self.wf(),
        ensures
            r is Ok <==> self.authorized(group_id@, *cred),
            r is Err ==> r == Err::<(), ServerError>(ServerError::Denied),
    {
        let g = match self.groups.get(group_id) {
            Some(g) => g,
            None => {
                return Err(ServerError::Denied);
            },
        };
        proof {
            assert(group_ok(self.groups.map()[group_id@]));
        }
        match g.creds.get(&cred.credential_id) {
            Some(rec) => if rec.live && ct_eq_key(&rec.secret, &cred.credential_secret) {
                Ok(())
            } else {
                Err(ServerError::Denied)
            },
            None => Err(ServerError::Denied),
        }
    }

    /// The signing key on record for a credential of a group.
    pub fn signing_pk(&self, group_id: &[u8; KEY_LEN], credential_id: &[u8; KEY_LEN]) -> (r: Option<
        [u8; KEY_LEN],
    >)
        requires
            self.wf(),
        ensures
            r == (if self.groups().contains_key(group_id@) && self.groups()[group_id@].creds.map().contains_key(credential_id@) {
                self.groups()[group_id@].creds.map()[credential_id@].signing_pk
            } else {
                None
            }),
    {
        let g = self.groups.get(group_id)?;
        proof {
            assert(group_ok(self.groups.map()[group_id@]));
        }
        let rec = g.creds.get(credential_id)?;
        rec.signing_pk
    }
}

/// Only group `gid` may differ; files and clock stay.
pub open spec fn others_same(before: GroupHost, after: GroupHost, gid: Seq<u8>) -> bool {
    &&& after.groups().dom() == before.groups().dom()
    &&& forall|k: Seq<u8>| k != gid && #[trigger] before.groups().contains_key(k) ==> after.groups()[k] == before.groups()[k]
    &&& after.files() == before.files()
    &&& after.clock() == before.clock()
    &&& after.budget() == before.budget()
}

/// The group's fields after a change.
pub open spec fn group_is(
    g: GroupState,
    file_bytes: u64,
    next_seq: u64,
    bytes: u64,
    creds: Map<Seq<u8>, CredRecord>,
    invites: Map<Seq<u8>, StoredInvite>,
    pending: Map<Seq<u8>, PendingRecord>,
) -> bool {
    &&& g.file_bytes == file_bytes
    &&& g.next_seq == next_seq
    &&& g.bytes == bytes
    &&& g.creds.map() == creds
    &&& g.invites.map() == invites
    &&& g.pending.map() == pending
}

/// Whether `len` more bytes fit the group's stream.
pub open spec fn fits(g: GroupState, len: u64) -> bool {
    g.bytes + len <= STREAM_MAX_BYTES
}

fn fanout_targets(creds: &KeyMap<CredRecord>) -> (r: Vec<FanoutTarget>)
    ensures
        r@ == fanout_of(creds.values()),
{
    let mut out: Vec<FanoutTarget> = Vec::new();
    let n = creds.len();
    let mut i: usize = 0;
    assert(creds.values().take(0) =~= Seq::<CredRecord>::empty());
    while i < n
        invariant
            n == creds.values().len(),
            i <= n,
            out@ == fanout_of(creds.values().take(i as int)),
        decreases n - i,
    {
        let rec = creds.value_at(i);
        assert(creds.values().take(i + 1).drop_last() =~= creds.values().take(i as int));
        if rec.live {
            if let Some(t) = rec.fanout {
                out.push(t);
            }
        }
        i = i + 1;
    }
    assert(creds.values().take(n as int) =~= creds.values());
    out
}

impl GroupHost {
    /// Takes group `gid` out to change it; `put_group` puts it back.
    fn take_group(&mut self, group_id: &[u8; KEY_LEN]) -> (g: GroupState)
        requires
            old(self).wf(),
            old(self).groups().contains_key(group_id@),
        ensures
            g == old(self).groups()[group_id@],
            group_ok(g),
            final(self).groups.wf(),
            final(self).groups() == old(self).groups().remove(group_id@),
            final(self).files == old(self).files,
            final(self).now == old(self).now,
            final(self).budget() == old(self).budget(),
    {
        proof {
            assert(group_ok(self.groups.map()[group_id@]));
        }
        match self.groups.remove(group_id) {
            Some(g) => g,
            None => {
                proof {
                    assert(false);
                }
                GroupState {
                    next_seq: 1,
                    creds: KeyMap::new(),
                    invites: KeyMap::new(),
                    pending: KeyMap::new(),
                    bytes: 0,
                    file_bytes: 0,
                }
            },
        }
    }

    fn put_group(&mut self, group_id: [u8; KEY_LEN], g: GroupState)
        requires
            old(self).groups.wf(),
            old(self).files.wf(),
            forall|k: Seq<u8>| #[trigger] old(self).groups().contains_key(k) ==> group_ok(old(self).groups()[k]),
            group_ok(g),
        ensures
            final(self).wf(),
            final(self).groups() == old(self).groups().insert(group_id@, g),
            final(self).files == old(self).files,
            final(self).now == old(self).now,
            final(self).budget() == old(self).budget(),
    {
        self.groups.insert(group_id, g);
        proof {
            assert forall|k: Seq<u8>| #[trigger] self.groups.map().contains_key(k) implies group_ok(
                self.groups.map()[k],
            ) by {
                if k != group_id@ {
                    assert(old(self).groups().contains_key(k));
                }
            }
        }
    }

    /// Numbers a stream object of `body_len` bytes and lists its targets,
    /// if the stream's budget allows it.
    fn fanout_copy(&mut self, group_id: &[u8; KEY_LEN], body_len: u64) -> (r: Result<
        StreamAppend,
        ServerError,
    >)
        requires
            old(self).wf(),
            old(self).groups().contains_key(group_id@),
            old(self).groups()[group_id@].next_seq < u64::MAX,
        ensures
            final(self).wf(),
            ({
                let g = old(self).groups()[group_id@];
                if fits(g, body_len) {
                    &&& others_same(*old(self), *final(self), group_id@)
                    &&& group_is(
                        final(self).groups()[group_id@],
                        g.file_bytes,
                        (g.next_seq + 1) as u64,
                        (g.bytes + body_len) as u64,
                        g.creds.map(),
                        g.invites.map(),
                        g.pending.map(),
                    )
                    &&& final(self).groups()[group_id@].creds.values() == g.creds.values()
                    &&& r matches Ok(a) && a.seq == g.next_seq && a.targets@ == fanout_of(
                        g.creds.values(),
                    )
                } else {
                    &&& *final(self) == *old(self)
                    &&& r == Err::<StreamAppend, ServerError>(ServerError::Denied)
                }
            }),
    {
        proof {
            assert(group_ok(self.groups.map()[group_id@]));
        }
        let ghost before = *self;
        let bytes = match self.groups.get(group_id) {
            Some(g) => g.bytes,
            None => 0,
        };
        if bytes.saturating_add(body_len) > STREAM_MAX_BYTES {
            return Err(ServerError::Denied);
        }
        let mut g = self.take_group(group_id);
        let seq = g.next_seq;
        g.next_seq = g.next_seq + 1;
        g.bytes = g.bytes + body_len;
        let targets = fanout_targets(&g.creds);
        self.put_group(*group_id, g);
        proof {
            assert(self.groups() =~= before.groups().insert(group_id@, self.groups()[group_id@]));
            assert(self.groups().dom() =~= before.groups().dom());
        }
        Ok(StreamAppend { seq, targets })
    }

    /// The next stream number of a group, if it exists.
    pub fn next_seq(&self, group_id: &[u8; KEY_LEN]) -> (r: Option<u64>)
        requires
            self.wf(),
        ensures
            r == (if self.groups().contains_key(group_id@) {
                Some(self.groups()[group_id@].next_seq)
            } else {
                None
            }),
    {
        match self.groups.get(group_id) {
            Some(g) => Some(g.next_seq),
            None => None,
        }
    }

    /// A revocation statement the host itself appends (the caller has
    /// checked it).
    pub fn append_host_revocation(&mut self, group_id: &[u8; KEY_LEN], body: &[u8]) -> (r: Result<
        StreamAppend,
        ServerError,
    >)
        requires
            old(self).wf(),
            old(self).groups().contains_key(group_id@) ==> old(self).groups()[group_id@].next_seq
                < u64::MAX,
        ensures
            final(self).wf(),
            !old(self).groups().contains_key(group_id@) ==> r == Err::<StreamAppend, ServerError>(
                ServerError::Denied,
            ) && *final(self) == *old(self),
            old(self).groups().contains_key(group_id@) ==> ({
                let g = old(self).groups()[group_id@];
                if fits(g, body@.len() as u64) {
                    &&& others_same(*old(self), *final(self), group_id@)
                    &&& group_is(
                        final(self).groups()[group_id@],
                        g.file_bytes,
                        (g.next_seq + 1) as u64,
                        (g.bytes + body@.len()) as u64,
                        g.creds.map(),
                        g.invites.map(),
                        g.pending.map(),
                    )
                    &&& r matches Ok(a) && a.seq == g.next_seq && a.targets@ == fanout_of(
                        g.creds.values(),
                    )
                } else {
                    *final(self) == *old(self) && r == Err::<StreamAppend, ServerError>(
                        ServerError::Denied,
                    )
                }
            }),
    {
        if !self.groups.contains(group_id) {
            return Err(ServerError::Denied);
        }
        self.fanout_copy(group_id, body.len() as u64)
    }

    /// A live member changes where its copies go.
    pub fn refresh_fanout(&mut self, group_id: &[u8; KEY_LEN], cred: &MemberCred, fanout: FanoutTarget) -> (r:
        Result<(), ServerError>)
        requires
            old(self).wf(),
        ensures
            final(self).wf(),
            !old(self).authorized(group_id@, *cred) ==> r == Err::<(), ServerError>(
                ServerError::Denied,
            ) && *final(self) == *old(self),
            old(self).authorized(group_id@, *cred) ==> ({
                let g = old(self).groups()[group_id@];
                let rec = g.creds.map()[cred.credential_id@];
                &&& r is Ok
                &&& others_same(*old(self), *final(self), group_id@)
                &&& group_is(
                    final(self).groups()[group_id@],
                    g.file_bytes,
                    g.next_seq,
                    g.bytes,
                    g.creds.map().insert(cred.credential_id@, CredRecord { fanout: Some(fanout), ..rec }),
                    g.invites.map(),
                    g.pending.map(),
                )
            }),
    {
        self.authorize_live(group_id, cred)?;
        let ghost before = *self;
        let mut g = self.take_group(group_id);
        let rec = match g.creds.get(&cred.credential_id) {
            Some(rec) => *rec,
            None => {
                proof {
                    assert(false);
                }
                CredRecord { secret: [0u8; KEY_LEN], live: false, signing_pk: None, fanout: None }
            },
        };
        g.creds.insert(cred.credential_id, CredRecord { fanout: Some(fanout), ..rec });
        self.put_group(*group_id, g);
        proof {
            assert(self.groups() =~= before.groups().insert(group_id@, self.groups()[group_id@]));
            assert(self.groups().dom() =~= before.groups().dom());
        }
        Ok(())
    }
}

/// What an invite states, as far as the host reads it.
#[derive(Clone, Copy, Debug, PartialEq, Eq)]
pub struct InviteFacts {
    pub group_id: [u8; KEY_LEN],
    pub nonce: [u8; KEY_LEN],
    pub ttl_secs: u64,
    pub invitee_binding: Option<[u8; KEY_LEN]>,
}

/// What an admit statement names.
#[derive(Clone, Copy, Debug, PartialEq, Eq)]
pub struct AdmitFacts {
    pub group_id: [u8; KEY_LEN],
    pub pending_id: [u8; KEY_LEN],
}

pub open spec fn sat_add(a: u64, b: u64) -> u64 {
    if a + b > u64::MAX {
        u64::MAX
    } else {
        (a + b) as u64
    }
}

/// The signing key on record for a credential of a group.
pub open spec fn signing_key_of(h: GroupHost, gid: Seq<u8>, cid: Seq<u8>) -> Option<[u8; KEY_LEN]> {
    if h.groups().contains_key(gid) && h.groups()[gid].creds.map().contains_key(cid) {
        h.groups()[gid].creds.map()[cid].signing_pk
    } else {
        None
    }
}

impl GroupHost {
    /// A live member stores an invite it signed: it must name this group
    /// and carry a good signature by the member's key on record. The host
    /// never mints invites. `signature` is the outcome of checking the
    /// invite against that key.
    pub fn store_invite(
        &mut self,
        group_id: &[u8; KEY_LEN],
        cred: &MemberCred,
        invite: &InviteFacts,
        signature: Result<(), ServerError>,
    ) -> (r: Result<(), ServerError>)
        requires
            old(self).wf(),
        ensures
            final(self).wf(),
            ({
                let ok = old(self).authorized(group_id@, *cred) && invite.group_id@ == group_id@
                    && signing_key_of(*old(self), group_id@, cred.credential_id@) is Some
                    && signature is Ok;
                &&& !ok ==> r == Err::<(), ServerError>(ServerError::Denied) && *final(self) == *old(self)
                &&& ok ==> {
                    let g = old(self).groups()[group_id@];
                    &&& r is Ok
                    &&& others_same(*old(self), *final(self), group_id@)
                    &&& group_is(
                        final(self).groups()[group_id@],
                        g.file_bytes,
                        g.next_seq,
                        g.bytes,
                        g.creds.map(),
                        g.invites.map().insert(
                            invite.nonce@,
                            StoredInvite {
                                expires_at: sat_add(old(self).clock(), invite.ttl_secs),
                                invitee_binding: invite.invitee_binding,
                            },
                        ),
                        g.pending.map(),
                    )
                }
            }),
    {
        self.authorize_live(group_id, cred)?;
        if !same_id(&invite.group_id, group_id) {
            return Err(ServerError::Denied);
        }
        if self.signing_pk(group_id, &cred.credential_id).is_none() {
            return Err(ServerError::Denied);
        }
        if signature.is_err() {
            return Err(ServerError::Denied);
        }
        let ghost before = *self;
        let now = self.now;
        let mut g = self.take_group(group_id);
        g.invites.insert(
            invite.nonce,
            StoredInvite { expires_at: now.saturating_add(invite.ttl_secs), invitee_binding: invite.invitee_binding },
        );
        self.put_group(*group_id, g);
        proof {
            assert(self.groups() =~= before.groups().insert(group_id@, self.groups()[group_id@]));
            assert(self.groups().dom() =~= before.groups().dom());
        }
        Ok(())
    }

    /// Redeems an invite, once: the invite is gone afterwards whatever the
    /// outcome. An unexpired one reserves a new (not yet live) credential
    /// and a pending join that expires with the invite. When the operating
    /// system gives no random bytes for them, nothing changes and the
    /// answer is [`ServerError::Randomness`].
    pub fn accept(&mut self, group_id: &[u8; KEY_LEN], nonce: &[u8; KEY_LEN]) -> (r: Result<
        PendingJoin,
        ServerError,
    >)
        requires
            old(self).wf(),
        ensures
            final(self).wf(),
            !(old(self).groups().contains_key(group_id@) && old(self).groups()[group_id@].invites.map().contains_key(nonce@))
                ==> r == Err::<PendingJoin, ServerError>(ServerError::Denied) && *final(self) == *old(self),
            r == Err::<PendingJoin, ServerError>(ServerError::Randomness) ==> *final(self) == *old(self),
            (old(self).groups().contains_key(group_id@) && old(self).groups()[group_id@].invites.map().contains_key(nonce@))
                && r != Err::<PendingJoin, ServerError>(ServerError::Randomness) ==> {
                let g = old(self).groups()[group_id@];
                let inv = g.invites.map()[nonce@];
                &&& others_same(*old(self), *final(self), group_id@)
                &&& !final(self).groups()[group_id@].invites.map().contains_key(nonce@)
                &&& old(self).clock() >= inv.expires_at ==> {
                    &&& r == Err::<PendingJoin, ServerError>(ServerError::Denied)
                    &&& group_is(
                        final(self).groups()[group_id@],
                        g.file_bytes,
                        g.next_seq,
                        g.bytes,
                        g.creds.map(),
                        g.invites.map().remove(nonce@),
                        g.pending.map(),
                    )
                }
                &&& old(self).clock() < inv.expires_at ==> (r matches Ok(pj) && {
                    &&& pj.invitee_binding == inv.invitee_binding
                    &&& group_is(
                        final(self).groups()[group_id@],
                        g.file_bytes,
                        g.next_seq,
                        g.bytes,
                        g.creds.map().insert(
                            pj.cred.credential_id@,
                            CredRecord {
                                secret: pj.cred.credential_secret,
                                live: false,
                                signing_pk: None,
                                fanout: None,
                            },
                        ),
                        g.invites.map().remove(nonce@),
                        g.pending.map().insert(
                            pj.pending_id@,
                            PendingRecord { cred: pj.cred, expires_at: inv.expires_at },
                        ),
                    )
                })
            },
    {
        let present = match self.groups.get(group_id) {
            Some(g) => {
                proof {
                    assert(group_ok(self.groups.map()[group_id@]));
                }
                g.invites.contains(nonce)
            },
            None => false,
        };
        if !present {
            return Err(ServerError::Denied);
        }
        let (credential_id, credential_secret, pending_id) = match (random_token(), random_token(), random_token()) {
            (Some(i), Some(k), Some(p)) => (i, k, p),
            _ => {
                return Err(ServerError::Randomness);
            },
        };
        let ghost before = *self;
        let now = self.now;
        let mut g = self.take_group(group_id);
        let stored = match g.invites.remove(nonce) {
            Some(s) => s,
            None => {
                proof {
                    assert(false);
                }
                StoredInvite { expires_at: 0, invitee_binding: None }
            },
        };
        if now >= stored.expires_at {
            self.put_group(*group_id, g);
            proof {
                assert(self.groups() =~= before.groups().insert(group_id@, self.groups()[group_id@]));
                assert(self.groups().dom() =~= before.groups().dom());
            }
            return Err(ServerError::Denied);
        }
        let cred = MemberCred { credential_id, credential_secret };
        g.creds.insert(
            cred.credential_id,
            CredRecord { secret: cred.credential_secret, live: false, signing_pk: None, fanout: None },
        );
        g.pending.insert(pending_id, PendingRecord { cred, expires_at: stored.expires_at });
        self.put_group(*group_id, g);
        proof {
            assert(self.groups() =~= before.groups().insert(group_id@, self.groups()[group_id@]));
            assert(self.groups().dom() =~= before.groups().dom());
        }
        Ok(PendingJoin { pending_id, cred, invitee_binding: stored.invitee_binding })
    }

    /// A live member admits a pending join it signed for. Expired pending
    /// joins and invites of the group are dropped first; an unexpired
    /// pending join's credential becomes live with the joiner's signing key
    /// and fan-out target, and its id is returned.
    pub fn admit_join(
        &mut self,
        group_id: &[u8; KEY_LEN],
        admitter: &MemberCred,
        statement: &AdmitFacts,
        signature: Result<(), ServerError>,
        joiner_signing_pk: [u8; KEY_LEN],
        fanout: FanoutTarget,
    ) -> (r: Result<[u8; KEY_LEN], ServerError>)
        requires
            old(self).wf(),
        ensures
            final(self).wf(),
            ({
                let checked = old(self).authorized(group_id@, *admitter) && statement.group_id@ == group_id@
                    && signing_key_of(*old(self), group_id@, admitter.credential_id@) is Some
                    && signature is Ok;
                &&& !checked ==> r == Err::<[u8; KEY_LEN], ServerError>(ServerError::Denied) && *final(self) == *old(self)
                &&& checked ==> {
                    let g = old(self).groups()[group_id@];
                    let now = old(self).clock();
                    let pending = unexpired_map(g.pending.map(), now);
                    let invites = unexpired_map(g.invites.map(), now);
                    &&& others_same(*old(self), *final(self), group_id@)
                    &&& !pending.contains_key(statement.pending_id@) ==> r == Err::<[u8; KEY_LEN], ServerError>(ServerError::Denied)
                        && group_is(final(self).groups()[group_id@], g.file_bytes, g.next_seq, g.bytes, g.creds.map(), invites, pending)
                    &&& pending.contains_key(statement.pending_id@) ==> {
                        let p = pending[statement.pending_id@];
                        let cid = p.cred.credential_id@;
                        &&& !g.creds.map().contains_key(cid) ==> r == Err::<[u8; KEY_LEN], ServerError>(ServerError::Denied)
                            && group_is(final(self).groups()[group_id@], g.file_bytes, g.next_seq, g.bytes, g.creds.map(), invites, pending.remove(statement.pending_id@))
                        &&& g.creds.map().contains_key(cid) ==> (r matches Ok(id) && id@ == cid && group_is(
                            final(self).groups()[group_id@],
                            g.file_bytes,
                            g.next_seq,
                            g.bytes,
                            g.creds.map().insert(
                                cid,
                                CredRecord {
                                    live: true,
                                    signing_pk: Some(joiner_signing_pk),
                                    fanout: Some(fanout),
                                    ..g.creds.map()[cid]
                                },
                            ),
                            invites,
                            pending.remove(statement.pending_id@),
                        ))
                    }
                }
            }),
    {
        self.authorize_live(group_id, admitter)?;
        if !same_id(&statement.group_id, group_id) {
            return Err(ServerError::Denied);
        }
        if self.signing_pk(group_id, &admitter.credential_id).is_none() {
            return Err(ServerError::Denied);
        }
        if signature.is_err() {
            return Err(ServerError::Denied);
        }
        let ghost before = *self;
        let now = self.now;
        let mut g = self.take_group(group_id);
        g.pending.retain_unexpired(now);
        g.invites.retain_unexpired(now);
        let ghost kept_pending = g.pending.map();
        let reserved = match g.pending.remove(&statement.pending_id) {
            Some(p) => p,
            None => {
                assert(g.pending.map() =~= kept_pending);
                self.put_group(*group_id, g);
                proof {
                    assert(self.groups() =~= before.groups().insert(group_id@, self.groups()[group_id@]));
                    assert(self.groups().dom() =~= before.groups().dom());
                }
                return Err(ServerError::Denied);
            },
        };
        let rec = match g.creds.get(&reserved.cred.credential_id) {
            Some(rec) => *rec,
            None => {
                self.put_group(*group_id, g);
                proof {
                    assert(self.groups() =~= before.groups().insert(group_id@, self.groups()[group_id@]));
                    assert(self.groups().dom() =~= before.groups().dom());
                }
                return Err(ServerError::Denied);
            },
        };
        g.creds.insert(
            reserved.cred.credential_id,
            CredRecord { live: true, signing_pk: Some(joiner_signing_pk), fanout: Some(fanout), ..rec },
        );
        self.put_group(*group_id, g);
        proof {
            assert(self.groups() =~= before.groups().insert(group_id@, self.groups()[group_id@]));
            assert(self.groups().dom() =~= before.groups().dom());
        }
        Ok(reserved.cred.credential_id)
    }
}

/// What an append carries, as far as the host reads it. Decoding the
/// body and checking its signatures against the appender's key on record
/// are the caller's; their outcome comes in here.
#[derive(Debug)]
pub enum AppendKind {
    /// An MLS handshake or application message, or a revocation
    /// statement: copied as is.
    Copy,
    /// A remove bundle naming credential `named`; `sidecar` is the outcome
    /// of checking its signature.
    Remove { named: [u8; KEY_LEN], sidecar: Result<(), ServerError> },
    /// A replacement of the appender's signing key by `new_pk`.
    SigningReplace { new_pk: [u8; KEY_LEN], signature: Result<(), ServerError> },
    /// A reservation of an attachment slot.
    Reserve { fetch_token: [u8; KEY_LEN], ttl: TtlBucket, size: usize },
    /// Any other message type.
    Other,
}

/// When a reserved attachment expires.
pub open spec fn slot_expiry(now: u64, ttl: TtlBucket) -> u64 {
    match ttl_secs_of(ttl) {
        Some(s) => sat_add(now, s),
        None => sat_add(now, STREAM_MAX_AGE_SECS),
    }
}

/// A stream object was numbered and counted: the fields of the group after
/// it, with `creds` the credentials at that point.
pub open spec fn appended(
    before: GroupHost,
    after: GroupHost,
    gid: Seq<u8>,
    g: GroupState,
    file_bytes: u64,
    creds: Map<Seq<u8>, CredRecord>,
    len: u64,
    r: Result<StreamAppend, ServerError>,
    targets: Seq<FanoutTarget>,
) -> bool {
    &&& after.groups().dom() == before.groups().dom()
    &&& forall|k: Seq<u8>| k != gid && #[trigger] before.groups().contains_key(k) ==> after.groups()[k] == before.groups()[k]
    &&& after.clock() == before.clock()
    &&& after.budget() == before.budget()
    &&& group_is(after.groups()[gid], file_bytes, (g.next_seq + 1) as u64, (g.bytes + len) as u64, creds, g.invites.map(), g.pending.map())
    &&& r matches Ok(a) && a.seq == g.next_seq && a.targets@ == targets
}

impl GroupHost {
    /// A live member appends to the group stream. Copies are numbered in
    /// order and go to every live member with a fan-out target; the stream
    /// never holds more than [`STREAM_MAX_BYTES`].
    pub fn append(
        &mut self,
        group_id: &[u8; KEY_LEN],
        cred: &MemberCred,
        kind: AppendKind,
        body: &[u8],
    ) -> (r: Result<StreamAppend, ServerError>)
        requires
            old(self).wf(),
            old(self).groups().contains_key(group_id@) ==> old(self).groups()[group_id@].next_seq
                < u64::MAX,
        ensures
            final(self).wf(),
            !old(self).authorized(group_id@, *cred) ==> r == Err::<StreamAppend, ServerError>(
                ServerError::Denied,
            ) && *final(self) == *old(self),
            old(self).authorized(group_id@, *cred) ==> {
                let g = old(self).groups()[group_id@];
                let len = body@.len() as u64;
                let cid = cred.credential_id@;
                match kind {
                    AppendKind::Other => r == Err::<StreamAppend, ServerError>(ServerError::Denied)
                        && *final(self) == *old(self),
                    AppendKind::Copy => if fits(g, len) {
                        appended(*old(self), *final(self), group_id@, g, g.file_bytes, g.creds.map(), len, r, fanout_of(g.creds.values()))
                            && final(self).files() == old(self).files()
                    } else {
                        r == Err::<StreamAppend, ServerError>(ServerError::Denied) && *final(self) == *old(self)
                    },
                    AppendKind::Remove { named, sidecar } => if g.creds.map()[cid].signing_pk is None {
                        r == Err::<StreamAppend, ServerError>(ServerError::Denied) && *final(self) == *old(self)
                    } else if sidecar is Err {
                        r == Err::<StreamAppend, ServerError>(sidecar->Err_0) && *final(self) == *old(self)
                    } else if !fits(g, len) {
                        r == Err::<StreamAppend, ServerError>(ServerError::Denied) && *final(self) == *old(self)
                    } else {
                        appended(
                            *old(self),
                            *final(self),
                            group_id@,
                            g,
                            g.file_bytes,
                            if g.creds.map().contains_key(named@) {
                                g.creds.map().insert(named@, CredRecord { live: false, fanout: None, ..g.creds.map()[named@] })
                            } else {
                                g.creds.map()
                            },
                            len,
                            r,
                            fanout_of(g.creds.values()),
                        ) && final(self).files() == old(self).files()
                    },
                    AppendKind::SigningReplace { new_pk, signature } => if g.creds.map()[cid].signing_pk is None {
                        r == Err::<StreamAppend, ServerError>(ServerError::Denied) && *final(self) == *old(self)
                    } else if signature is Err {
                        r == Err::<StreamAppend, ServerError>(signature->Err_0) && *final(self) == *old(self)
                    } else {
                        let creds = g.creds.map().insert(cid, CredRecord { signing_pk: Some(new_pk), ..g.creds.map()[cid] });
                        if fits(g, len) {
                            appended(*old(self), *final(self), group_id@, g, g.file_bytes, creds, len, r, fanout_of(final(self).groups()[group_id@].creds.values()))
                                && final(self).files() == old(self).files()
                        } else {
                            &&& r == Err::<StreamAppend, ServerError>(ServerError::Denied)
                            &&& others_same(*old(self), *final(self), group_id@)
                            &&& group_is(final(self).groups()[group_id@], g.file_bytes, g.next_seq, g.bytes, creds, g.invites.map(), g.pending.map())
                        }
                    },
                    AppendKind::Reserve { fetch_token, ttl, size } => if old(self).files().contains_key(fetch_token@) || !fits(g, len)
                        || g.file_bytes + size > old(self).budget() {
                        r == Err::<StreamAppend, ServerError>(ServerError::Denied) && *final(self) == *old(self)
                    } else {
                        appended(*old(self), *final(self), group_id@, g, (g.file_bytes + size) as u64, g.creds.map(), len, r, fanout_of(g.creds.values()))
                            && final(self).files() == old(self).files().insert(
                            fetch_token@,
                            FileSlot {
                                group_id: *group_id,
                                owner: cred.credential_id,
                                size,
                                expires_at: slot_expiry(old(self).clock(), ttl),
                                bytes: None,
                            },
                        )
                    },
                }
            },
    {
        self.authorize_live(group_id, cred)?;
        proof {
            assert(group_ok(self.groups.map()[group_id@]));
        }
        let len = body.len() as u64;
        match kind {
            AppendKind::Other => Err(ServerError::Denied),
            AppendKind::Copy => self.fanout_copy(group_id, len),
            AppendKind::Remove { named, sidecar } => {
                if self.signing_pk(group_id, &cred.credential_id).is_none() {
                    return Err(ServerError::Denied);
                }
                if let Err(e) = sidecar {
                    return Err(e);
                }
                let out = self.fanout_copy(group_id, len)?;
                let ghost mid = *self;
                let mut g = self.take_group(group_id);
                if let Some(rec) = g.creds.get(&named) {
                    let r2 = CredRecord { live: false, fanout: None, ..*rec };
                    g.creds.insert(named, r2);
                }
                self.put_group(*group_id, g);
                proof {
                    assert(self.groups() =~= mid.groups().insert(group_id@, self.groups()[group_id@]));
                    assert(self.groups().dom() =~= mid.groups().dom());
                }
                Ok(out)
            },
            AppendKind::SigningReplace { new_pk, signature } => {
                if self.signing_pk(group_id, &cred.credential_id).is_none() {
                    return Err(ServerError::Denied);
                }
                if let Err(e) = signature {
                    return Err(e);
                }
                let ghost before = *self;
                let mut g = self.take_group(group_id);
                let rec = match g.creds.get(&cred.credential_id) {
                    Some(rec) => *rec,
                    None => {
                        proof {
                            assert(false);
                        }
                        CredRecord { secret: [0u8; KEY_LEN], live: false, signing_pk: None, fanout: None }
                    },
                };
                g.creds.insert(cred.credential_id, CredRecord { signing_pk: Some(new_pk), ..rec });
                self.put_group(*group_id, g);
                proof {
                    assert(self.groups() =~= before.groups().insert(group_id@, self.groups()[group_id@]));
                    assert(self.groups().dom() =~= before.groups().dom());
                }
                self.fanout_copy(group_id, len)
            },
            AppendKind::Reserve { fetch_token, ttl, size } => {
                if self.files.contains(&fetch_token) {
                    return Err(ServerError::Denied);
                }
                let expires_at = match ttl.ttl_secs() {
                    Some(s) => self.now.saturating_add(s),
                    None => self.now.saturating_add(STREAM_MAX_AGE_SECS),
                };
                let used = match self.groups.get(group_id) {
                    Some(g) => g.file_bytes,
                    None => 0,
                };
                let within = match used.checked_add(size as u64) {
                    Some(total) => total <= self.file_budget,
                    None => false,
                };
                if !within {
                    return Err(ServerError::Denied);
                }
                let out = self.fanout_copy(group_id, len)?;
                let ghost mid = *self;
                let mut g = self.take_group(group_id);
                g.file_bytes = g.file_bytes + size as u64;
                self.put_group(*group_id, g);
                proof {
                    assert(self.groups() =~= mid.groups().insert(group_id@, self.groups()[group_id@]));
                    assert(self.groups().dom() =~= mid.groups().dom());
                }
                self.files.insert(
                    fetch_token,
                    FileSlot { group_id: *group_id, owner: cred.credential_id, size, expires_at, bytes: None },
                );
                Ok(out)
            },
        }
    }
}

/// An upload fits its slot: reserved by this credential for this group,
/// not expired, empty, and exactly the reserved size.
pub open spec fn upload_fits(slot: FileSlot, gid: Seq<u8>, owner: Seq<u8>, now: u64, len: nat) -> bool {
    &&& slot.group_id@ == gid
    &&& slot.owner@ == owner
    &&& now < slot.expires_at
    &&& slot.bytes is None
    &&& len == slot.size
}

impl GroupHost {
    /// Stores an attachment into the slot its reserver made; the first
    /// upload wins and later ones are refused.
    pub fn upload_file(
        &mut self,
        group_id: &[u8; KEY_LEN],
        cred: &MemberCred,
        fetch_token: &[u8; KEY_LEN],
        body: Vec<u8>,
    ) -> (r: Result<(), ServerError>)
        requires
            old(self).wf(),
        ensures
            final(self).wf(),
            (old(self).authorized(group_id@, *cred) && old(self).files().contains_key(fetch_token@)
                && upload_fits(old(self).files()[fetch_token@], group_id@, cred.credential_id@, old(self).clock(), body@.len()))
                ==> {
                let slot = old(self).files()[fetch_token@];
                &&& r is Ok
                &&& final(self).groups() == old(self).groups()
                &&& final(self).clock() == old(self).clock()
                &&& final(self).files() == old(self).files().insert(
                    fetch_token@,
                    FileSlot { bytes: Some(body), ..slot },
                )
            },
            !(old(self).authorized(group_id@, *cred) && old(self).files().contains_key(fetch_token@)
                && upload_fits(old(self).files()[fetch_token@], group_id@, cred.credential_id@, old(self).clock(), body@.len()))
                ==> r == Err::<(), ServerError>(ServerError::Denied) && *final(self) == *old(self),
    {
        self.authorize_live(group_id, cred)?;
        let ok = match self.files.get(fetch_token) {
            Some(slot) => same_id(&slot.group_id, group_id) && same_id(&slot.owner, &cred.credential_id)
                && self.now < slot.expires_at && slot.bytes.is_none() && body.len() == slot.size,
            None => false,
        };
        if !ok {
            return Err(ServerError::Denied);
        }
        let ghost before = *self;
        let slot = match self.files.remove(fetch_token) {
            Some(slot) => slot,
            None => {
                proof {
                    assert(false);
                }
                FileSlot { group_id: *group_id, owner: cred.credential_id, size: 0, expires_at: 0, bytes: None }
            },
        };
        let filled = FileSlot {
            group_id: slot.group_id,
            owner: slot.owner,
            size: slot.size,
            expires_at: slot.expires_at,
            bytes: Some(body),
        };
        self.files.insert(*fetch_token, filled);
        proof {
            assert(self.files() =~= before.files().insert(fetch_token@, filled));
        }
        Ok(())
    }

    /// Hands out an uploaded attachment to a live member holding its token.
    pub fn fetch_file(&self, group_id: &[u8; KEY_LEN], cred: &MemberCred, fetch_token: &[u8; KEY_LEN]) -> (r:
        Result<Vec<u8>, ServerError>)
        requires
            self.wf(),
        ensures
            (self.authorized(group_id@, *cred) && self.files().contains_key(fetch_token@) && ({
                let slot = self.files()[fetch_token@];
                slot.group_id@ == group_id@ && self.clock() < slot.expires_at && slot.bytes is Some
            })) ==> (r matches Ok(b) && b@ == self.files()[fetch_token@].bytes->0@),
            !(self.authorized(group_id@, *cred) && self.files().contains_key(fetch_token@) && ({
                let slot = self.files()[fetch_token@];
                slot.group_id@ == group_id@ && self.clock() < slot.expires_at && slot.bytes is Some
            })) ==> r == Err::<Vec<u8>, ServerError>(ServerError::Denied),
    {
        self.authorize_live(group_id, cred)?;
        match self.files.get(fetch_token) {
            Some(slot) => {
                if same_id(&slot.group_id, group_id) && self.now < slot.expires_at {
                    match &slot.bytes {
                        Some(b) => Ok(crate::ids::array_to_vec(b.as_slice())),
                        None => Err(ServerError::Denied),
                    }
                } else {
                    Err(ServerError::Denied)
                }
            },
            None => Err(ServerError::Denied),
        }
    }
}

/// No group stream ever holds more than [`STREAM_MAX_BYTES`]: every
/// operation keeps the host well formed, and well formed means within
/// budget.
pub proof fn law_stream_budget(h: GroupHost, gid: Seq<u8>)
    requires
        h.wf(),
        h.groups().contains_key(gid),
    ensures
        h.groups()[gid].bytes <= STREAM_MAX_BYTES,
{
    reveal(GroupHost::wf);
    assert(group_ok(h.groups.map()[gid]));
}

/// Once an attachment slot holds bytes, no upload fits it again.
pub proof fn law_first_upload_wins(slot: FileSlot, gid: Seq<u8>, owner: Seq<u8>, now: u64, len: nat)
    requires
        slot.bytes is Some,
    ensures
        !upload_fits(slot, gid, owner, now, len),
{
}

} // verus!
