//! Pinning a contact's keys and home binding from discovery rows. The
//! server is untrusted: every row's signatures are checked by the caller
//! first, and that outcome comes in with the row; these rules decide what
//! the pin accepts.

use vstd::prelude::*;
use crate::error::CoreError;
use crate::home_state::{ContactPin, StoredContact, HostGroup, ContactView, contacts_view};
use crate::ids::KEY_LEN;

verus! {

/// A binding must be refreshed from discovery at least this often.
pub const DISCOVERY_REFRESH_SECS: u64 = 43200;

/// A binding should be refreshed from discovery this often.
pub const DISCOVERY_REFRESH_SHOULD_SECS: u64 = 14400;

/// What a discovery row states: the identity's keys, the sequence number of
/// its home binding, and whether a revocation statement came with it.
#[derive(Clone, Copy, Debug, PartialEq, Eq)]
pub struct DiscoveryFacts {
    pub identity_public_key: [u8; KEY_LEN],
    pub revocation_public_key: [u8; KEY_LEN],
    pub binding_seq: u64,
    pub revoked: bool,
}

/// What a contact card states.
#[derive(Clone, Copy, Debug, PartialEq, Eq)]
pub struct CardFacts {
    pub identity_public_key: [u8; KEY_LEN],
    pub revocation_public_key: [u8; KEY_LEN],
    pub binding_seq: u64,
}

fn same_key(a: &[u8; KEY_LEN], b: &[u8; KEY_LEN]) -> (r: bool)
    ensures
        r == (a@ == b@),
{
    let mut i: usize = 0;
    while i < KEY_LEN
        invariant
            i <= KEY_LEN,
            a@.len() == KEY_LEN,
            b@.len() == KEY_LEN,
            forall|k: int| 0 <= k < i ==> a@[k] == b@[k],
        decreases KEY_LEN - i,
    {
        if a[i] != b[i] {
            return false;
        }
        i = i + 1;
    }
    assert(a@ =~= b@);
    true
}

/// What a revocation statement carried by a discovery row states: the
/// identity it revokes, and the outcome of the caller's check of its
/// signature under the row's revocation key.
#[derive(Debug)]
pub struct RevocationFacts {
    pub signature: Result<(), CoreError>,
    pub identity_id: [u8; KEY_LEN],
}

impl DiscoveryFacts {
    /// Whether a discovery row holds together. Its binding signature must
    /// have checked out; a revocation statement it carries must have a good
    /// signature and must name the row's own identity, `identity_id` (the id
    /// of the row's identity key).
    pub fn verify(
        &self,
        identity_id: &[u8; KEY_LEN],
        binding: Result<(), CoreError>,
        revocation: Option<RevocationFacts>,
    ) -> (r: Result<(), CoreError>)
        ensures
            binding is Err ==> r == binding,
            binding is Ok ==> r == match revocation {
                None => Ok::<(), CoreError>(()),
                Some(st) => if st.signature is Err {
                    st.signature
                } else if st.identity_id@ != identity_id@ {
                    Err(CoreError::IdentityMismatch)
                } else {
                    Ok(())
                },
            },
    {
        if let Err(e) = binding {
            return Err(e);
        }
        match revocation {
            None => Ok(()),
            Some(st) => {
                if let Err(e) = st.signature {
                    return Err(e);
                }
                if !same_key(&st.identity_id, identity_id) {
                    return Err(CoreError::IdentityMismatch);
                }
                Ok(())
            },
        }
    }

    /// A revoked identity is refused.
    pub fn check_not_revoked(&self) -> (r: Result<(), CoreError>)
        ensures
            self.revoked ==> r == Err::<(), CoreError>(CoreError::Revoked),
            !self.revoked ==> r is Ok,
    {
        if self.revoked {
            Err(CoreError::Revoked)
        } else {
            Ok(())
        }
    }
}

/// First contact: the current binding comes from discovery, not from the
/// card's snapshot. Both must have verified; the keys must agree; the
/// identity must not be revoked; discovery must not be behind the card.
/// The accepted row is handed back: its binding is the one to use.
pub fn resolve_contact(
    card_verified: Result<(), CoreError>,
    card: &CardFacts,
    discovery_verified: Result<(), CoreError>,
    discovery: &DiscoveryFacts,
) -> (r: Result<DiscoveryFacts, CoreError>)
    ensures
        card_verified is Err ==> r == Err::<DiscoveryFacts, CoreError>(card_verified->Err_0),
        card_verified is Ok && discovery_verified is Err ==> r == Err::<DiscoveryFacts, CoreError>(
            discovery_verified->Err_0,
        ),
        card_verified is Ok && discovery_verified is Ok ==> r == (if discovery.identity_public_key@
            != card.identity_public_key@ || discovery.revocation_public_key@
            != card.revocation_public_key@ {
            Err::<DiscoveryFacts, CoreError>(CoreError::IdentityMismatch)
        } else if discovery.revoked {
            Err(CoreError::Revoked)
        } else if discovery.binding_seq < card.binding_seq {
            Err(CoreError::BindingDowngrade)
        } else {
            Ok(*discovery)
        }),
{
    if let Err(e) = card_verified {
        return Err(e);
    }
    if let Err(e) = discovery_verified {
        return Err(e);
    }
    if !same_key(&discovery.identity_public_key, &card.identity_public_key) {
        return Err(CoreError::IdentityMismatch);
    }
    if !same_key(&discovery.revocation_public_key, &card.revocation_public_key) {
        return Err(CoreError::IdentityMismatch);
    }
    discovery.check_not_revoked()?;
    if discovery.binding_seq < card.binding_seq {
        return Err(CoreError::BindingDowngrade);
    }
    Ok(*discovery)
}

impl ContactPin {
    /// The pin a card gives: its identity, its keys, its binding number.
    pub fn from_card(identity_id: [u8; KEY_LEN], card: &CardFacts) -> (p: ContactPin)
        ensures
            p.identity_id == identity_id,
            p.identity_public_key == card.identity_public_key,
            p.revocation_public_key == card.revocation_public_key,
            p.seq == card.binding_seq,
    {
        ContactPin {
            identity_id,
            identity_public_key: card.identity_public_key,
            revocation_public_key: card.revocation_public_key,
            seq: card.binding_seq,
        }
    }

    /// Pins the highest accepted binding number. A verified row for the
    /// same identity, not revoked and not behind the pin, raises the pin to
    /// its number; anything else is refused and leaves the pin as it was.
    /// The pin never goes down and its keys never change. An accepted row
    /// is handed back: its binding is the contact's current one.
    pub fn refresh(&mut self, verified: Result<(), CoreError>, discovery: &DiscoveryFacts) -> (r:
        Result<DiscoveryFacts, CoreError>)
        ensures
            verified is Err ==> r == Err::<DiscoveryFacts, CoreError>(verified->Err_0),
            verified is Ok ==> r == (if discovery.identity_public_key@
                != old(self).identity_public_key@ {
                Err::<DiscoveryFacts, CoreError>(CoreError::IdentityMismatch)
            } else if discovery.revoked {
                Err(CoreError::Revoked)
            } else if discovery.binding_seq < old(self).seq {
                Err(CoreError::BindingDowngrade)
            } else {
                Ok(*discovery)
            }),
            r is Ok ==> final(self).seq == discovery.binding_seq,
            r is Err ==> final(self).seq == old(self).seq,
            final(self).seq >= old(self).seq,
            final(self).identity_id == old(self).identity_id,
            final(self).identity_public_key == old(self).identity_public_key,
            final(self).revocation_public_key == old(self).revocation_public_key,
    {
        if let Err(e) = verified {
            return Err(e);
        }
        if !same_key(&discovery.identity_public_key, &self.identity_public_key) {
            return Err(CoreError::IdentityMismatch);
        }
        discovery.check_not_revoked()?;
        if discovery.binding_seq < self.seq {
            return Err(CoreError::BindingDowngrade);
        }
        self.seq = discovery.binding_seq;
        Ok(*discovery)
    }
}

/// The ids of the contacts marked revoked, in list order.
pub open spec fn revoked_ids(s: Seq<ContactView>) -> Seq<Seq<u8>>
    decreases s.len(),
{
    if s.len() == 0 {
        seq![]
    } else if s.last().revoked {
        revoked_ids(s.drop_last()).push(s.last().id)
    } else {
        revoked_ids(s.drop_last())
    }
}

pub open spec fn ids_view(v: Seq<[u8; KEY_LEN]>) -> Seq<Seq<u8>> {
    Seq::new(v.len(), |i: int| v[i]@)
}

pub fn revoked_contact_ids(contacts: &Vec<StoredContact>) -> (r: Vec<[u8; KEY_LEN]>)
    ensures
        ids_view(r@) == revoked_ids(contacts_view(contacts@)),
{
    let ghost cv = contacts_view(contacts@);
    let mut out: Vec<[u8; KEY_LEN]> = Vec::new();
    let mut k: usize = 0;
    assert(ids_view(out@) =~= revoked_ids(cv.take(0)));
    while k < contacts.len()
        invariant
            k <= contacts@.len(),
            cv == contacts_view(contacts@),
            ids_view(out@) == revoked_ids(cv.take(k as int)),
        decreases contacts@.len() - k,
    {
        assert(cv.take(k + 1).drop_last() =~= cv.take(k as int));
        assert(cv.take(k + 1).last() == contacts@[k as int]@);
        if contacts[k].revoked {
            let ghost before = ids_view(out@);
            out.push(contacts[k].pin.identity_id);
            assert(ids_view(out@) =~= before.push(contacts@[k as int].pin.identity_id@));
        }
        k = k + 1;
    }
    assert(cv.take(k as int) =~= cv);
    out
}

/// The host origin of a group: that of the first entry with its id, empty
/// (this home) when there is none.
pub fn group_origin(groups: &Vec<HostGroup>, group_id: &[u8; KEY_LEN]) -> (r: String)
    ensures
        (exists|i: int| 0 <= i < groups@.len() && #[trigger] groups@[i].group_id@ == group_id@) ==> exists|i: int|
            0 <= i < groups@.len() && #[trigger] groups@[i].group_id@ == group_id@ && r@ == groups@[i].host_base@ && forall|j: int| 0 <= j < i ==> groups@[j].group_id@ != group_id@,
        !(exists|i: int| 0 <= i < groups@.len() && #[trigger] groups@[i].group_id@ == group_id@) ==> r@ == Seq::<char>::empty(),
{
    let mut i: usize = 0;
    while i < groups.len()
        invariant
            i <= groups@.len(),
            forall|j: int| 0 <= j < i ==> #[trigger] groups@[j].group_id@ != group_id@,
        decreases groups@.len() - i,
    {
        if same_key(&groups[i].group_id, group_id) {
            return groups[i].host_base.clone();
        }
        i = i + 1;
    }
    String::new()
}

/// Whether an identity met only through a group needs a discovery check:
/// never checked, or last checked [`DISCOVERY_REFRESH_SECS`] or more ago.
pub fn discovery_due(last_checked: Option<u64>, now: u64) -> (r: bool)
    ensures
        r == match last_checked {
            None => true,
            Some(t) => (if now >= t {
                now - t
            } else {
                0
            }) >= DISCOVERY_REFRESH_SECS,
        },
{
    match last_checked {
        None => true,
        Some(t) => now.saturating_sub(t) >= DISCOVERY_REFRESH_SECS,
    }
}

/// The ids of `contacts`, in list order.
pub open spec fn contact_ids(s: Seq<ContactView>) -> Seq<Seq<u8>> {
    Seq::new(s.len(), |i: int| s[i].id)
}

/// The group members an idle check looks up itself: neither this
/// identity nor a contact, in member order.
pub open spec fn extras_of(members: Seq<Seq<u8>>, own: Seq<u8>, known: Seq<Seq<u8>>) -> Seq<Seq<u8>>
    decreases members.len(),
{
    if members.len() == 0 {
        seq![]
    } else if members.last() != own && !known.contains(members.last()) {
        extras_of(members.drop_last(), own, known).push(members.last())
    } else {
        extras_of(members.drop_last(), own, known)
    }
}

/// Each id once, where it first occurs.
pub open spec fn first_occurrences(s: Seq<Seq<u8>>) -> Seq<Seq<u8>>
    decreases s.len(),
{
    if s.len() == 0 {
        seq![]
    } else if first_occurrences(s.drop_last()).contains(s.last()) {
        first_occurrences(s.drop_last())
    } else {
        first_occurrences(s.drop_last()).push(s.last())
    }
}

/// Whether `id` is one of `contacts`.
fn is_contact(contacts: &Vec<StoredContact>, id: &[u8; KEY_LEN]) -> (r: bool)
    ensures
        r == contact_ids(contacts_view(contacts@)).contains(id@),
{
    let ghost ids = contact_ids(contacts_view(contacts@));
    let mut k: usize = 0;
    while k < contacts.len()
        invariant
            k <= contacts@.len(),
            ids == contact_ids(contacts_view(contacts@)),
            forall|j: int| 0 <= j < k ==> ids[j] != id@,
        decreases contacts@.len() - k,
    {
        assert(ids[k as int] == contacts@[k as int].pin.identity_id@);
        if crate::keymap::same_id(&contacts[k].pin.identity_id, id) {
            assert(ids[k as int] == id@);
            return true;
        }
        k = k + 1;
    }
    false
}

/// Whether `id` is in `v`.
fn holds_id(v: &Vec<[u8; KEY_LEN]>, id: &[u8; KEY_LEN]) -> (r: bool)
    ensures
        r == ids_view(v@).contains(id@),
{
    let mut k: usize = 0;
    while k < v.len()
        invariant
            k <= v@.len(),
            forall|j: int| 0 <= j < k ==> ids_view(v@)[j] != id@,
        decreases v@.len() - k,
    {
        if crate::keymap::same_id(&v[k], id) {
            assert(ids_view(v@)[k as int] == id@);
            return true;
        }
        k = k + 1;
    }
    false
}

/// The members of this installation's groups that an idle check looks up
/// itself: neither this identity nor one of its contacts (those are
/// refreshed as contacts), in member order.
pub fn group_extras(members: &Vec<[u8; KEY_LEN]>, own: &[u8; KEY_LEN], contacts: &Vec<StoredContact>) -> (r: Vec<
    [u8; KEY_LEN],
>)
    ensures
        ids_view(r@) == extras_of(ids_view(members@), own@, contact_ids(contacts_view(contacts@))),
{
    let ghost m = ids_view(members@);
    let ghost known = contact_ids(contacts_view(contacts@));
    let mut out: Vec<[u8; KEY_LEN]> = Vec::new();
    let mut k: usize = 0;
    assert(ids_view(out@) =~= extras_of(m.take(0), own@, known));
    while k < members.len()
        invariant
            k <= members@.len(),
            m == ids_view(members@),
            known == contact_ids(contacts_view(contacts@)),
            ids_view(out@) == extras_of(m.take(k as int), own@, known),
        decreases members@.len() - k,
    {
        assert(m.take(k + 1).drop_last() =~= m.take(k as int));
        assert(m.take(k + 1).last() == members@[k as int]@);
        if !crate::keymap::same_id(&members[k], own) && !is_contact(contacts, &members[k]) {
            let ghost before = ids_view(out@);
            out.push(members[k]);
            assert(ids_view(out@) =~= before.push(members@[k as int]@));
        }
        k = k + 1;
    }
    assert(m.take(k as int) =~= m);
    out
}

/// Each id once, where it first occurs (an identity revoked twice is
/// removed from its groups once).
pub fn distinct_ids(ids: &Vec<[u8; KEY_LEN]>) -> (r: Vec<[u8; KEY_LEN]>)
    ensures
        ids_view(r@) == first_occurrences(ids_view(ids@)),
{
    let ghost m = ids_view(ids@);
    let mut out: Vec<[u8; KEY_LEN]> = Vec::new();
    let mut k: usize = 0;
    assert(ids_view(out@) =~= first_occurrences(m.take(0)));
    while k < ids.len()
        invariant
            k <= ids@.len(),
            m == ids_view(ids@),
            ids_view(out@) == first_occurrences(m.take(k as int)),
        decreases ids@.len() - k,
    {
        assert(m.take(k + 1).drop_last() =~= m.take(k as int));
        assert(m.take(k + 1).last() == ids@[k as int]@);
        if !holds_id(&out, &ids[k]) {
            let ghost before = ids_view(out@);
            out.push(ids[k]);
            assert(ids_view(out@) =~= before.push(ids@[k as int]@));
        }
        k = k + 1;
    }
    assert(m.take(k as int) =~= m);
    out
}

/// Taking first occurrences keeps every id and repeats none.
pub proof fn law_first_occurrences(s: Seq<Seq<u8>>)
    ensures
        forall|i: int, j: int|
            0 <= i < j < first_occurrences(s).len() ==> first_occurrences(s)[i] != first_occurrences(s)[j],
        forall|x: Seq<u8>| first_occurrences(s).contains(x) <==> s.contains(x),
    decreases s.len(),
{
    if s.len() > 0 {
        let d = s.drop_last();
        law_first_occurrences(d);
        let r = first_occurrences(d);
        assert forall|x: Seq<u8>| first_occurrences(s).contains(x) <==> s.contains(x) by {
            if s.contains(x) && x != s.last() {
                let k = choose|k: int| 0 <= k < s.len() && s[k] == x;
                assert(d[k] == x);
            }
            if d.contains(x) {
                let k = choose|k: int| 0 <= k < d.len() && d[k] == x;
                assert(s[k] == x);
            }
            if first_occurrences(s).contains(x) && !r.contains(x) {
                assert(x == s.last());
                assert(s[s.len() - 1] == x);
            }
            if r.contains(s.last()) {
            } else {
                assert(r.push(s.last())[r.len() as int] == s.last());
                if r.contains(x) {
                    let k = choose|k: int| 0 <= k < r.len() && r[k] == x;
                    assert(r.push(s.last())[k] == x);
                }
            }
        }
        if !r.contains(s.last()) {
            assert forall|i: int, j: int| 0 <= i < j < r.push(s.last()).len() implies r.push(s.last())[i] != r.push(
                s.last(),
            )[j] by {
                if j == r.len() {
                    assert(r.push(s.last())[i] == r[i]);
                }
            }
        }
    }
}

} // verus!
