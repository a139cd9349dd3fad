//! Group (MLS) policy: which handshakes a member accepts, when a remove is
//! genuine, how often a member must refresh its own leaf, and the map from
//! leaf signature keys to host credential ids, which never changes an entry
//! once written. The MLS state machine itself is the MLS library's.

use vstd::prelude::*;
use crate::error::CoreError;
use crate::ids::KEY_LEN;

verus! {

/// RFC 9420 `MLS_128_DHKEMX25519_CHACHA20POLY1305_SHA256_Ed25519`.
pub const CIPHERSUITE: u16 = 0x0003;

/// Leaf extension carrying the host credential id.
pub const CREDENTIAL_ID_EXT: u16 = 0xF001;

/// Leaf extension carrying the member's group signing key.
pub const GROUP_SIGNING_EXT: u16 = 0xF002;

/// A member whose own last update is older than this may not send.
pub const UPDATE_BEFORE_SEND: u64 = 259200;

/// A member refreshes its leaf at least this often.
pub const UPDATE_INTERVAL: u64 = 604800;

/// A member coming online refreshes a leaf older than this.
pub const UPDATE_ON_ONLINE: u64 = 86400;

/// Time since the last own update, zero if the clock went back.
pub open spec fn update_age(last_update: u64, now: u64) -> int {
    if now >= last_update {
        now - last_update
    } else {
        0
    }
}

/// An update is due when `interval` seconds have passed since the last one,
/// or when the clock reads earlier than it.
pub open spec fn update_due(last_update: u64, now: u64, interval: u64) -> bool {
    now < last_update || now - last_update >= interval
}

/// The weekly refresh is due.
pub fn needs_scheduled_update(last_update: u64, now: u64) -> (r: bool)
    ensures
        r == update_due(last_update, now, UPDATE_INTERVAL),
{
    now < last_update || now - last_update >= UPDATE_INTERVAL
}

/// The refresh on coming online is due.
pub fn needs_online_update(last_update: u64, now: u64) -> (r: bool)
    ensures
        r == update_due(last_update, now, UPDATE_ON_ONLINE),
{
    now < last_update || now - last_update >= UPDATE_ON_ONLINE
}

/// Sending is refused while the member's own update is older than
/// [`UPDATE_BEFORE_SEND`].
pub fn ensure_fresh_update(last_update: u64, now: u64) -> (r: Result<(), CoreError>)
    ensures
        update_age(last_update, now) > UPDATE_BEFORE_SEND ==> r == Err::<(), CoreError>(
            CoreError::StaleMlsUpdate,
        ),
        update_age(last_update, now) <= UPDATE_BEFORE_SEND ==> r is Ok,
{
    let age = if now >= last_update {
        now - last_update
    } else {
        0
    };
    if age > UPDATE_BEFORE_SEND {
        return Err(CoreError::StaleMlsUpdate);
    }
    Ok(())
}

/// What processing an MLS message produced, as far as policy reads it.
#[derive(Clone, Copy, Debug, PartialEq, Eq, Structural)]
pub enum Processed {
    /// A commit: whether it is an external join, and how many members it
    /// removes.
    Commit { external: bool, removes: u64 },
    ExternalJoinProposal,
    /// A standalone proposal: whether it asks to reinitialise the group.
    Proposal { reinit: bool },
    Application,
}

/// Why a group message is refused.
pub enum Refusal {
    ExternalJoin,
    UnframedRemove,
    Reinit,
    /// A standalone proposal, an application message on the handshake path,
    /// or a remove bundle whose body is not a commit.
    Unexpected,
    BadRemoveBundle,
}

/// `e` is the error the library reports for `f`.
pub open spec fn refusal_reported(e: CoreError, f: Refusal) -> bool {
    match f {
        Refusal::ExternalJoin => e == CoreError::ExternalMlsJoin,
        Refusal::UnframedRemove => e == CoreError::UnframedRemove,
        Refusal::Reinit => e == CoreError::MlsReinit,
        Refusal::Unexpected => e is Mls,
        Refusal::BadRemoveBundle => e == CoreError::BadRemoveBundle,
    }
}

/// What a handshake (add or update) leads to.
pub open spec fn handshake_outcome(p: Processed) -> Option<Refusal> {
    match p {
        Processed::Commit { external, removes } => if external {
            Some(Refusal::ExternalJoin)
        } else if removes > 0 {
            Some(Refusal::UnframedRemove)
        } else {
            None
        },
        Processed::ExternalJoinProposal => Some(Refusal::ExternalJoin),
        Processed::Proposal { reinit } => if reinit {
            Some(Refusal::Reinit)
        } else {
            Some(Refusal::Unexpected)
        },
        Processed::Application => Some(Refusal::Unexpected),
    }
}

/// Accepts a commit that adds or updates; refuses external joins, removes
/// outside a signed remove bundle, reinitialisation, standalone proposals
/// and application messages.
pub fn handshake_verdict(p: Processed) -> (r: Result<(), CoreError>)
    ensures
        match handshake_outcome(p) {
            None => r is Ok,
            Some(f) => r matches Err(e) && refusal_reported(e, f),
        },
{
    match p {
        Processed::Commit { external, removes } => {
            if external {
                return Err(CoreError::ExternalMlsJoin);
            }
            if removes > 0 {
                return Err(CoreError::UnframedRemove);
            }
            Ok(())
        },
        Processed::ExternalJoinProposal => Err(CoreError::ExternalMlsJoin),
        Processed::Proposal { reinit } => {
            if reinit {
                return Err(CoreError::MlsReinit);
            }
            Err(CoreError::Mls(String::from_str("standalone proposal is not used in v1")))
        },
        Processed::Application => Err(
            CoreError::Mls(String::from_str("handshake path got an application message")),
        ),
    }
}

/// Every member a remove commit removes is the one the bundle names, and
/// there is exactly one.
pub open spec fn removes_exactly(removed: Seq<Option<Seq<u8>>>, want: Seq<u8>) -> bool {
    removed.len() == 1 && removed[0] == Some(want)
}

/// What a signed remove bundle's commit leads to.
pub open spec fn remove_outcome(
    p: Processed,
    removed: Seq<Option<Seq<u8>>>,
    want: Seq<u8>,
) -> Option<Refusal> {
    match p {
        Processed::Commit { external, removes } => if external {
            Some(Refusal::ExternalJoin)
        } else if removes != 1 {
            Some(Refusal::BadRemoveBundle)
        } else if !removes_exactly(removed, want) {
            Some(Refusal::BadRemoveBundle)
        } else {
            None
        },
        _ => Some(Refusal::Unexpected),
    }
}

pub open spec fn opt_key_view(v: Seq<Option<[u8; KEY_LEN]>>) -> Seq<Option<Seq<u8>>> {
    Seq::new(
        v.len(),
        |i: int|
            match v[i] {
                Some(k) => Some(k@),
                None => None,
            },
    )
}

fn same_key(a: &[u8; KEY_LEN], b: &[u8; KEY_LEN]) -> (r: bool)
    ensures
        r == (a@ == b@),
{
    let mut i: usize = 0;
    while i < KEY_LEN
        invariant
            a@.len() == KEY_LEN,
            b@.len() == KEY_LEN,
            i <= KEY_LEN,
            forall|k: int| 0 <= k < i ==> a@[k] == b@[k],
        decreases KEY_LEN - i,
    {
        if a[i] != b[i] {
            return false;
        }
        i = i + 1;
    }
    assert(a@ =~= b@);
    true
}

/// Checks the commit of a signed remove bundle: a commit from a member that
/// removes exactly the credential the bundle names. `removed` lists, for each
/// removed leaf, the credential id recorded for it.
pub fn remove_verdict(p: Processed, removed: &[Option<[u8; KEY_LEN]>], want: &[u8; KEY_LEN]) -> (r:
    Result<(), CoreError>)
    ensures
        match remove_outcome(p, opt_key_view(removed@), want@) {
            None => r is Ok,
            Some(f) => r matches Err(e) && refusal_reported(e, f),
        },
{
    match p {
        Processed::Commit { external, removes } => {
            if external {
                return Err(CoreError::ExternalMlsJoin);
            }
            if removes != 1 {
                return Err(CoreError::BadRemoveBundle);
            }
            let ok = removed.len() == 1 && match &removed[0] {
                Some(k) => same_key(k, want),
                None => false,
            };
            if !ok {
                return Err(CoreError::BadRemoveBundle);
            }
            Ok(())
        },
        _ => Err(CoreError::Mls(String::from_str("RemoveBundle body is not a Commit"))),
    }
}

/// Leaf signature key to host credential id. An entry, once written, never
/// changes.
pub struct CredentialIds {
    entries: Vec<(Vec<u8>, [u8; KEY_LEN])>,
}

impl CredentialIds {
    pub closed spec fn entries_view(self) -> Seq<(Seq<u8>, Seq<u8>)> {
        Seq::new(self.entries@.len(), |i: int| (self.entries@[i].0@, self.entries@[i].1@))
    }

    /// No signature key occurs twice.
    pub closed spec fn wf(self) -> bool {
        forall|i: int, j: int|
            0 <= i < j < self.entries@.len() ==> self.entries@[i].0@ != self.entries@[j].0@
    }

    /// The recorded map.
    pub closed spec fn map(self) -> Map<Seq<u8>, Seq<u8>> {
        Map::new(
            |k: Seq<u8>| exists|i: int| 0 <= i < self.entries@.len() && self.entries@[i].0@ == k,
            |k: Seq<u8>|
                self.entries@[choose|i: int|
                    0 <= i < self.entries@.len() && self.entries@[i].0@ == k].1@,
        )
    }

    pub fn new() -> (r: Self)
        ensures
            r.wf(),
            r.map() == Map::<Seq<u8>, Seq<u8>>::empty(),
    {
        let r = CredentialIds { entries: Vec::new() };
        assert(r.map() =~= Map::<Seq<u8>, Seq<u8>>::empty());
        r
    }

    fn find(&self, sig: &[u8]) -> (r: Option<usize>)
        requires
            self.wf(),
        ensures
            match r {
                Some(i) => i < self.entries@.len() && self.entries@[i as int].0@ == sig@,
                None => forall|i: int|
                    0 <= i < self.entries@.len() ==> self.entries@[i].0@ != sig@,
            },
    {
        let mut i: usize = 0;
        while i < self.entries.len()
            invariant
                i <= self.entries@.len(),
                forall|k: int| 0 <= k < i ==> self.entries@[k].0@ != sig@,
            decreases self.entries@.len() - i,
        {
            if bytes_eq(self.entries[i].0.as_slice(), sig) {
                return Some(i);
            }
            i = i + 1;
        }
        None
    }

    /// The credential id recorded for a signature key.
    pub fn get(&self, sig: &[u8]) -> (r: Option<[u8; KEY_LEN]>)
        requires
            self.wf(),
        ensures
            match r {
                Some(c) => self.map().contains_key(sig@) && self.map()[sig@] == c@,
                None => !self.map().contains_key(sig@),
            },
    {
        match self.find(sig) {
            Some(i) => {
                proof {
                    self.lemma_map_at(i as int);
                }
                Some(self.entries[i].1)
            },
            None => None,
        }
    }

    proof fn lemma_map_at(self, i: int)
        requires
            self.wf(),
            0 <= i < self.entries@.len(),
        ensures
            self.map().contains_key(self.entries@[i].0@),
            self.map()[self.entries@[i].0@] == self.entries@[i].1@,
    {
        let k = self.entries@[i].0@;
        let j = choose|j: int| 0 <= j < self.entries@.len() && self.entries@[j].0@ == k;
        if j != i {
            if j < i {
                assert(self.entries@[j].0@ != self.entries@[i].0@);
            } else {
                assert(self.entries@[i].0@ != self.entries@[j].0@);
            }
        }
    }

    /// Records the credential id of a leaf. A signature key already recorded
    /// with another id is refused and nothing changes.
    pub fn note(&mut self, sig: &[u8], cid: [u8; KEY_LEN]) -> (r: Result<(), CoreError>)
        requires
            old(self).wf(),
        ensures
            final(self).wf(),
            old(self).map().contains_key(sig@) && old(self).map()[sig@] != cid@ ==> (r is Err
                && r->Err_0 is Mls && final(self).map() == old(self).map()),
            !(old(self).map().contains_key(sig@) && old(self).map()[sig@] != cid@) ==> (r is Ok
                && final(self).map() == old(self).map().insert(sig@, cid@)),
            forall|k: Seq<u8>|
                old(self).map().contains_key(k) ==> #[trigger] final(self).map().contains_key(k)
                    && final(self).map()[k] == old(self).map()[k],
    {
        match self.find(sig) {
            Some(i) => {
                proof {
                    self.lemma_map_at(i as int);
                }
                if !same_key(&self.entries[i].1, &cid) {
                    return Err(CoreError::Mls(String::from_str("0xF001 is immutable")));
                }
                assert(self.map() =~= old(self).map().insert(sig@, cid@));
                Ok(())
            },
            None => {
                let ghost before = self.map();
                let key = slice_to_vec(sig);
                self.entries.push((key, cid));
                proof {
                    assert(self.wf());
                    let n = self.entries@.len() - 1;
                    assert forall|k: Seq<u8>| #[trigger] self.map().contains_key(k) <==> before.insert(sig@, cid@).contains_key(k) by {
                        if before.contains_key(k) {
                            let j = choose|j: int| 0 <= j < old(self).entries@.len() && old(self).entries@[j].0@ == k;
                            assert(self.entries@[j] == old(self).entries@[j]);
                        }
                        if k == sig@ {
                            assert(self.entries@[n].0@ == k);
                        }
                        if self.map().contains_key(k) && k != sig@ {
                            let j = choose|j: int| 0 <= j < self.entries@.len() && self.entries@[j].0@ == k;
                            assert(j < n);
                            assert(old(self).entries@[j] == self.entries@[j]);
                        }
                    }
                    assert forall|k: Seq<u8>| #[trigger] self.map().contains_key(k) implies self.map()[k] == before.insert(sig@, cid@)[k] by {
                        if k == sig@ {
                            self.lemma_map_at(n);
                        } else {
                            let j = choose|j: int| 0 <= j < self.entries@.len() && self.entries@[j].0@ == k;
                            assert(j < n);
                            self.lemma_map_at(j);
                            old(self).lemma_map_at(j);
                            assert(old(self).entries@[j] == self.entries@[j]);
                        }
                    }
                    assert(self.map() =~= before.insert(sig@, cid@));
                }
                Ok(())
            },
        }
    }
}

fn bytes_eq(a: &[u8], b: &[u8]) -> (r: bool)
    ensures
        r == (a@ == b@),
{
    if a.len() != b.len() {
        return false;
    }
    let mut i: usize = 0;
    while i < a.len()
        invariant
            a@.len() == b@.len(),
            i <= a@.len(),
            forall|k: int| 0 <= k < i ==> a@[k] == b@[k],
        decreases a@.len() - i,
    {
        if a[i] != b[i] {
            return false;
        }
        i = i + 1;
    }
    assert(a@ =~= b@);
    true
}

fn slice_to_vec(a: &[u8]) -> (r: Vec<u8>)
    ensures
        r@ == a@,
{
    let mut out: Vec<u8> = Vec::new();
    let mut i: usize = 0;
    while i < a.len()
        invariant
            i <= a@.len(),
            out@ == a@.take(i as int),
        decreases a@.len() - i,
    {
        out.push(a[i]);
        i = i + 1;
        assert(out@ =~= a@.take(i as int));
    }
    assert(a@.take(i as int) =~= a@);
    out
}

} // verus!
