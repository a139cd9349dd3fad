//! The durable home binding: the server bundle, the mailbox cursor, the
//! pinned contacts, the group hosts, the home origin and the privacy mode,
//! stored as one CBOR map so that a reopened vault finds them again.
//! Contacts form a map by identity id; it is kept as a list in increasing
//! id order, the order in which they are stored.

use vstd::prelude::*;
use crate::cbor::{Value, ValueSpec, enc, parse, lookup, map_get, view_entries, view_items,
    lemma_view_entries_push, lemma_view_items_push, well_formed, nesting, MAX_DEPTH,
    law_decode_encode, lemma_nesting_entries_bound, lemma_nesting_items_bound};
use crate::error::CoreError;
use crate::home::{HostCred, StoreFault, store_reports, key_field, privacy_code, read_key_field,
    push_bytes_entry};
use crate::ids::{KEY_LEN, array_to_vec};
use crate::privacy::PrivacyMode;
use crate::tor::trim_slashes;
use crate::home::trim_slashes_str;

verus! {

// ---------------------------------------------------------------------------
// Identity ids in byte order
// ---------------------------------------------------------------------------

/// `a` comes before `b`: they agree up to a byte where `a`'s is smaller.
pub open spec fn id_lt(a: Seq<u8>, b: Seq<u8>) -> bool {
    exists|k: int| 0 <= k < a.len() && k < b.len() && a.take(k) == b.take(k) && #[trigger] a[k] < b[k]
}

pub proof fn lemma_id_lt_irreflexive(a: Seq<u8>)
    ensures
        !id_lt(a, a),
{
}

pub proof fn lemma_id_lt_asymmetric(a: Seq<u8>, b: Seq<u8>)
    requires
        id_lt(a, b),
    ensures
        !id_lt(b, a),
{
    if id_lt(b, a) {
        let k1 = choose|k: int| 0 <= k < a.len() && k < b.len() && a.take(k) == b.take(k) && #[trigger] a[k] < b[k];
        let k2 = choose|k: int| 0 <= k < b.len() && k < a.len() && b.take(k) == a.take(k) && #[trigger] b[k] < a[k];
        if k1 < k2 {
            assert(b.take(k2)[k1] == a.take(k2)[k1]);
        } else if k2 < k1 {
            assert(a.take(k1)[k2] == b.take(k1)[k2]);
        }
    }
}

pub proof fn lemma_id_lt_transitive(a: Seq<u8>, b: Seq<u8>, c: Seq<u8>)
    requires
        id_lt(a, b),
        id_lt(b, c),
    ensures
        id_lt(a, c),
{
    let k1 = choose|k: int| 0 <= k < a.len() && k < b.len() && a.take(k) == b.take(k) && #[trigger] a[k] < b[k];
    let k2 = choose|k: int| 0 <= k < b.len() && k < c.len() && b.take(k) == c.take(k) && #[trigger] b[k] < c[k];
    if k1 < k2 {
        assert(b.take(k2)[k1] == c.take(k2)[k1]);
        assert(b.take(k1) =~= c.take(k1)) by {
            assert forall|j: int| 0 <= j < k1 implies b.take(k1)[j] == c.take(k1)[j] by {
                assert(b.take(k2)[j] == c.take(k2)[j]);
            }
        }
        assert(a[k1] < c[k1]);
    } else if k2 < k1 {
        assert(a.take(k1)[k2] == b.take(k1)[k2]);
        assert(a.take(k2) =~= b.take(k2)) by {
            assert forall|j: int| 0 <= j < k2 implies a.take(k2)[j] == b.take(k2)[j] by {
                assert(a.take(k1)[j] == b.take(k1)[j]);
            }
        }
        assert(a[k2] < c[k2]);
    } else {
        assert(a[k1] < c[k1]);
    }
}

/// How two ids compare.
#[derive(Clone, Copy, Debug, PartialEq, Eq, Structural)]
pub enum IdOrder {
    Below,
    Same,
    Above,
}

pub fn order_ids(a: &[u8; KEY_LEN], b: &[u8; KEY_LEN]) -> (r: IdOrder)
    ensures
        r == IdOrder::Below <==> id_lt(a@, b@),
        r == IdOrder::Same <==> a@ == b@,
        r == IdOrder::Above <==> id_lt(b@, a@),
{
    let mut i: usize = 0;
    while i < KEY_LEN
        invariant
            i <= KEY_LEN,
            a@.len() == KEY_LEN,
            b@.len() == KEY_LEN,
            a@.take(i as int) == b@.take(i as int),
        decreases KEY_LEN - i,
    {
        if a[i] < b[i] {
            assert(id_lt(a@, b@)) by {
                assert(a@[i as int] < b@[i as int]);
            }
            proof {
                lemma_id_lt_asymmetric(a@, b@);
            }
            return IdOrder::Below;
        }
        if a[i] > b[i] {
            assert(id_lt(b@, a@)) by {
                assert(b@[i as int] < a@[i as int]);
            }
            proof {
                lemma_id_lt_asymmetric(b@, a@);
            }
            return IdOrder::Above;
        }
        assert(a@.take(i + 1) =~= a@.take(i as int).push(a@[i as int]));
        assert(b@.take(i + 1) =~= b@.take(i as int).push(b@[i as int]));
        i = i + 1;
    }
    assert(a@ =~= a@.take(KEY_LEN as int));
    assert(b@ =~= b@.take(KEY_LEN as int));
    proof {
        lemma_id_lt_irreflexive(a@);
    }
    IdOrder::Same
}

// ---------------------------------------------------------------------------
// Records
// ---------------------------------------------------------------------------

/// What a contact card pinned: the identity and its keys, and the highest
/// binding sequence number seen.
#[derive(Clone, Copy, Debug, PartialEq, Eq)]
pub struct ContactPin {
    pub identity_id: [u8; KEY_LEN],
    pub identity_public_key: [u8; KEY_LEN],
    pub revocation_public_key: [u8; KEY_LEN],
    pub seq: u64,
}

/// A 1:1 peer that can be sent to after invite-first discovery.
#[derive(Clone, Debug, PartialEq, Eq)]
pub struct StoredContact {
    pub pin: ContactPin,
    pub delivery_capability: [u8; KEY_LEN],
    pub dest_hpke: [u8; KEY_LEN],
    pub last_discovery_unix: u64,
    pub revoked: bool,
    /// HTTP origin of the peer's current home; empty means this home.
    pub home_origin: String,
}

/// A group hosted on some home, with this member's credential there.
#[derive(Clone, Debug, PartialEq, Eq)]
pub struct HostGroup {
    pub group_id: [u8; KEY_LEN],
    pub cred: HostCred,
    /// Group host HTTP origin; empty means the current home.
    pub host_base: String,
}

/// The durable binding to a home server.
#[derive(Debug)]
pub struct HomeState {
    /// The home's server bundle, in its wire encoding.
    pub bundle: Vec<u8>,
    pub cursor: u64,
    /// Pinned contacts in increasing identity-id order, one per id.
    pub contacts: Vec<StoredContact>,
    pub groups: Vec<HostGroup>,
    /// HTTP origin of the home; empty when the transport is in-process.
    pub home_base: String,
    pub privacy: PrivacyMode,
}

pub struct ContactView {
    pub id: Seq<u8>,
    pub public_key: Seq<u8>,
    pub revocation_key: Seq<u8>,
    pub seq: u64,
    pub capability: Seq<u8>,
    pub hpke: Seq<u8>,
    pub last_discovery: u64,
    pub revoked: bool,
    pub home_origin: Seq<char>,
}

pub struct GroupView {
    pub group_id: Seq<u8>,
    pub credential_id: Seq<u8>,
    pub credential_secret: Seq<u8>,
    pub host_base: Seq<char>,
}

pub struct StateView {
    pub bundle: Seq<u8>,
    pub cursor: u64,
    pub contacts: Seq<ContactView>,
    pub groups: Seq<GroupView>,
    pub home_base: Seq<char>,
    pub privacy: PrivacyMode,
}

impl View for StoredContact {
    type V = ContactView;

    open spec fn view(&self) -> ContactView {
        ContactView {
            id: self.pin.identity_id@,
            public_key: self.pin.identity_public_key@,
            revocation_key: self.pin.revocation_public_key@,
            seq: self.pin.seq,
            capability: self.delivery_capability@,
            hpke: self.dest_hpke@,
            last_discovery: self.last_discovery_unix,
            revoked: self.revoked,
            home_origin: self.home_origin@,
        }
    }
}

impl View for HostGroup {
    type V = GroupView;

    open spec fn view(&self) -> GroupView {
        GroupView {
            group_id: self.group_id@,
            credential_id: self.cred.credential_id@,
            credential_secret: self.cred.credential_secret@,
            host_base: self.host_base@,
        }
    }
}

pub open spec fn contacts_view(s: Seq<StoredContact>) -> Seq<ContactView> {
    Seq::new(s.len(), |i: int| s[i]@)
}

pub open spec fn groups_view(s: Seq<HostGroup>) -> Seq<GroupView> {
    Seq::new(s.len(), |i: int| s[i]@)
}

impl View for HomeState {
    type V = StateView;

    open spec fn view(&self) -> StateView {
        StateView {
            bundle: self.bundle@,
            cursor: self.cursor,
            contacts: contacts_view(self.contacts@),
            groups: groups_view(self.groups@),
            home_base: self.home_base@,
            privacy: self.privacy,
        }
    }
}

/// Contacts in strictly increasing id order: a map listed by its keys.
pub open spec fn sorted_contacts(s: Seq<ContactView>) -> bool {
    forall|i: int, j: int| 0 <= i < j < s.len() ==> #[trigger] id_lt(s[i].id, s[j].id)
}

/// Every id and key has [`KEY_LEN`] bytes.
pub open spec fn contact_keys_ok(c: ContactView) -> bool {
    &&& c.id.len() == KEY_LEN
    &&& c.public_key.len() == KEY_LEN
    &&& c.revocation_key.len() == KEY_LEN
    &&& c.capability.len() == KEY_LEN
    &&& c.hpke.len() == KEY_LEN
}

pub open spec fn group_keys_ok(g: GroupView) -> bool {
    &&& g.group_id.len() == KEY_LEN
    &&& g.credential_id.len() == KEY_LEN
    &&& g.credential_secret.len() == KEY_LEN
}

/// A state as it can be held: contacts form a map listed in id order.
pub open spec fn state_ok(s: StateView) -> bool {
    &&& sorted_contacts(s.contacts)
    &&& forall|i: int| 0 <= i < s.contacts.len() ==> contact_keys_ok(#[trigger] s.contacts[i])
    &&& forall|i: int| 0 <= i < s.groups.len() ==> group_keys_ok(#[trigger] s.groups[i])
}

// ---------------------------------------------------------------------------
// Inserting a contact
// ---------------------------------------------------------------------------

/// The contact list after `c` is put in by id: after every smaller id,
/// replacing a contact with the same id.
pub open spec fn insert_contact_spec(s: Seq<ContactView>, c: ContactView) -> Seq<ContactView>
    decreases s.len(),
{
    if s.len() == 0 {
        seq![c]
    } else if id_lt(s.last().id, c.id) {
        s.push(c)
    } else if s.last().id == c.id {
        s.drop_last().push(c)
    } else {
        insert_contact_spec(s.drop_last(), c).push(s.last())
    }
}

proof fn lemma_insert_below(s: Seq<ContactView>, c: ContactView, b: Seq<u8>)
    requires
        forall|i: int| 0 <= i < s.len() ==> id_lt(#[trigger] s[i].id, b),
        id_lt(c.id, b),
    ensures
        forall|i: int| 0 <= i < insert_contact_spec(s, c).len() ==> id_lt(
            #[trigger] insert_contact_spec(s, c)[i].id,
            b,
        ),
    decreases s.len(),
{
    if s.len() > 0 && !id_lt(s.last().id, c.id) && s.last().id != c.id {
        lemma_insert_below(s.drop_last(), c, b);
        let r = insert_contact_spec(s.drop_last(), c);
        assert forall|i: int| 0 <= i < r.push(s.last()).len() implies id_lt(
            #[trigger] r.push(s.last())[i].id,
            b,
        ) by {
            if i < r.len() {
                assert(r.push(s.last())[i] == r[i]);
            } else {
                assert(s.last() == s[s.len() - 1]);
            }
        }
    } else if s.len() > 0 && s.last().id == c.id {
        assert forall|i: int| 0 <= i < s.drop_last().push(c).len() implies id_lt(
            #[trigger] s.drop_last().push(c)[i].id,
            b,
        ) by {
            if i < s.len() - 1 {
                assert(s.drop_last().push(c)[i] == s[i]);
            }
        }
    } else if s.len() > 0 {
        assert forall|i: int| 0 <= i < s.push(c).len() implies id_lt(#[trigger] s.push(c)[i].id, b) by {
            if i < s.len() {
                assert(s.push(c)[i] == s[i]);
            }
        }
    }
}

/// Putting a contact in keeps the list sorted.
pub proof fn lemma_insert_sorted(s: Seq<ContactView>, c: ContactView)
    requires
        sorted_contacts(s),
        forall|i: int| 0 <= i < s.len() ==> (#[trigger] s[i]).id.len() == KEY_LEN,
        c.id.len() == KEY_LEN,
    ensures
        sorted_contacts(insert_contact_spec(s, c)),
    decreases s.len(),
{
    if s.len() == 0 {
        return;
    }
    let l = s.last();
    let r = insert_contact_spec(s, c);
    if id_lt(l.id, c.id) {
        assert forall|i: int, j: int| 0 <= i < j < r.len() implies #[trigger] id_lt(r[i].id, r[j].id) by {
            if j == s.len() {
                if i < s.len() - 1 {
                    assert(id_lt(s[i].id, s[s.len() - 1].id));
                    lemma_id_lt_transitive(s[i].id, l.id, c.id);
                }
            } else {
                assert(id_lt(s[i].id, s[j].id));
            }
        }
    } else if l.id == c.id {
        assert forall|i: int, j: int| 0 <= i < j < r.len() implies #[trigger] id_lt(r[i].id, r[j].id) by {
            if j == s.len() - 1 {
                assert(id_lt(s[i].id, s[s.len() - 1].id));
            } else {
                assert(id_lt(s[i].id, s[j].id));
            }
        }
    } else {
        let d = s.drop_last();
        assert(sorted_contacts(d)) by {
            assert forall|i: int, j: int| 0 <= i < j < d.len() implies #[trigger] id_lt(d[i].id, d[j].id) by {
                assert(id_lt(s[i].id, s[j].id));
            }
        }
        assert forall|i: int| 0 <= i < d.len() implies (#[trigger] d[i]).id.len() == KEY_LEN by {
            assert(d[i] == s[i]);
        }
        lemma_insert_sorted(d, c);
        let r0 = insert_contact_spec(d, c);
        assert(id_lt(c.id, l.id)) by {
            assert(l == s[s.len() - 1]);
            lemma_id_order_total(l.id, c.id);
        }
        assert forall|i: int| 0 <= i < d.len() implies id_lt(#[trigger] d[i].id, l.id) by {
            assert(id_lt(s[i].id, s[s.len() - 1].id));
        }
        lemma_insert_below(d, c, l.id);
        assert forall|i: int, j: int| 0 <= i < j < r.len() implies #[trigger] id_lt(r[i].id, r[j].id) by {
            if j == r0.len() {
                assert(r[i] == r0[i]);
                assert(id_lt(r0[i].id, l.id));
            } else {
                assert(r[i] == r0[i] && r[j] == r0[j]);
                assert(id_lt(r0[i].id, r0[j].id));
            }
        }
    }
}

/// Two ids of the same length are equal or one comes first.
pub proof fn lemma_id_order_total(a: Seq<u8>, b: Seq<u8>)
    requires
        a.len() == b.len(),
    ensures
        a == b || id_lt(a, b) || id_lt(b, a),
{
    if a != b {
        let k = choose|k: int| 0 <= k < a.len() && a[k] != b[k] && forall|j: int| 0 <= j < k ==> a[j] == b[j];
        assert(exists|k: int| 0 <= k < a.len() && a[k] != b[k] && forall|j: int| 0 <= j < k ==> a[j] == b[j]) by {
            lemma_first_difference(a, b, 0);
        }
        assert(a.take(k) =~= b.take(k));
        if a[k] < b[k] {
            assert(id_lt(a, b));
        } else {
            assert(id_lt(b, a));
        }
    }
}

proof fn lemma_first_difference(a: Seq<u8>, b: Seq<u8>, i: int)
    requires
        a.len() == b.len(),
        a != b,
        0 <= i <= a.len(),
        forall|j: int| 0 <= j < i ==> a[j] == b[j],
    ensures
        exists|k: int| 0 <= k < a.len() && a[k] != b[k] && forall|j: int| 0 <= j < k ==> a[j] == b[j],
    decreases a.len() - i,
{
    if i == a.len() {
        assert(a =~= b);
    } else if a[i] != b[i] {
        assert(0 <= i < a.len() && a[i] != b[i] && forall|j: int| 0 <= j < i ==> a[j] == b[j]);
    } else {
        lemma_first_difference(a, b, i + 1);
    }
}

/// Puts a contact in, by id (a map insert).
pub fn insert_contact(contacts: &mut Vec<StoredContact>, c: StoredContact)
    ensures
        contacts_view(final(contacts)@) == insert_contact_spec(contacts_view(old(contacts)@), c@),
        sorted_contacts(contacts_view(old(contacts)@)) ==> sorted_contacts(
            contacts_view(final(contacts)@),
        ),
    decreases old(contacts)@.len(),
{
    let ghost before = contacts_view(contacts@);
    proof {
        broadcast use vstd::array::array_len_matches_n;
        if sorted_contacts(before) {
            assert forall|i: int| 0 <= i < before.len() implies (#[trigger] before[i]).id.len() == KEY_LEN by {
                assert(before[i] == contacts@[i]@);
            }
            lemma_insert_sorted(before, c@);
        }
    }
    let n = contacts.len();
    if n == 0 {
        contacts.push(c);
        assert(contacts_view(contacts@) =~= seq![c@]);
        return;
    }
    let o = order_ids(&contacts[n - 1].pin.identity_id, &c.pin.identity_id);
    assert(before.last() == contacts@[n - 1]@);
    match o {
        IdOrder::Below => {
            contacts.push(c);
            assert(contacts_view(contacts@) =~= before.push(c@));
        },
        IdOrder::Same => {
            contacts.pop();
            contacts.push(c);
            assert(contacts_view(contacts@) =~= before.drop_last().push(c@));
        },
        IdOrder::Above => {
            let last = contacts.pop().unwrap();
            assert(contacts_view(contacts@) =~= before.drop_last());
            proof {
                lemma_id_lt_asymmetric(c@.id, before.last().id);
            }
            insert_contact(contacts, c);
            let ghost mid = contacts_view(contacts@);
            contacts.push(last);
            assert(contacts_view(contacts@) =~= mid.push(before.last()));
        },
    }
}

// ---------------------------------------------------------------------------
// Stored form
// ---------------------------------------------------------------------------

/// Version tag of the stored form.
pub const STATE_VERSION: u64 = 1;

pub open spec fn bool_code(b: bool) -> u64 {
    if b {
        1
    } else {
        0
    }
}

/// A contact is stored as a map keyed 0 to 8.
pub open spec fn contact_entries(c: ContactView) -> Seq<(u64, ValueSpec)> {
    seq![
        (0u64, ValueSpec::Bytes(c.id)),
        (1u64, ValueSpec::Bytes(c.public_key)),
        (2u64, ValueSpec::Bytes(c.revocation_key)),
        (3u64, ValueSpec::Uint(c.seq)),
        (4u64, ValueSpec::Bytes(c.capability)),
        (5u64, ValueSpec::Bytes(c.hpke)),
        (6u64, ValueSpec::Uint(c.last_discovery)),
        (7u64, ValueSpec::Uint(bool_code(c.revoked))),
        (8u64, ValueSpec::Text(c.home_origin)),
    ]
}

pub open spec fn contact_value(c: ContactView) -> ValueSpec {
    ValueSpec::Dict(contact_entries(c))
}

/// A group is stored as an array: id, credential id, secret, host origin.
pub open spec fn group_value(g: GroupView) -> ValueSpec {
    ValueSpec::Array(
        seq![
            ValueSpec::Bytes(g.group_id),
            ValueSpec::Bytes(g.credential_id),
            ValueSpec::Bytes(g.credential_secret),
            ValueSpec::Text(g.host_base),
        ],
    )
}

pub open spec fn contact_values(s: Seq<ContactView>) -> Seq<ValueSpec> {
    Seq::new(s.len(), |i: int| contact_value(s[i]))
}

pub open spec fn group_values(s: Seq<GroupView>) -> Seq<ValueSpec> {
    Seq::new(s.len(), |i: int| group_value(s[i]))
}

/// The whole state is one map: version, bundle, cursor, contacts in id
/// order, groups, home origin, privacy mode.
pub open spec fn state_entries(s: StateView) -> Seq<(u64, ValueSpec)> {
    seq![
        (0u64, ValueSpec::Uint(STATE_VERSION)),
        (1u64, ValueSpec::Bytes(s.bundle)),
        (2u64, ValueSpec::Uint(s.cursor)),
        (3u64, ValueSpec::Array(contact_values(s.contacts))),
        (4u64, ValueSpec::Array(group_values(s.groups))),
        (5u64, ValueSpec::Text(s.home_base)),
        (6u64, ValueSpec::Uint(privacy_code(s.privacy))),
    ]
}

pub(crate) fn push_entry(pairs: &mut Vec<(u64, Value)>, k: u64, v: Value)
    ensures
        view_entries(final(pairs)@) == view_entries(old(pairs)@).push((k, v@)),
{
    proof {
        lemma_view_entries_push(pairs@, (k, v));
    }
    pairs.push((k, v));
}

fn push_item(items: &mut Vec<Value>, v: Value)
    ensures
        view_items(final(items)@) == view_items(old(items)@).push(v@),
{
    proof {
        lemma_view_items_push(items@, v);
    }
    items.push(v);
}

fn contact_to_value(c: &StoredContact) -> (v: Value)
    ensures
        v@ == contact_value(c@),
{
    let mut pairs: Vec<(u64, Value)> = Vec::new();
    push_bytes_entry(&mut pairs, 0, &c.pin.identity_id);
    push_bytes_entry(&mut pairs, 1, &c.pin.identity_public_key);
    push_bytes_entry(&mut pairs, 2, &c.pin.revocation_public_key);
    push_entry(&mut pairs, 3, Value::Uint(c.pin.seq));
    push_bytes_entry(&mut pairs, 4, &c.delivery_capability);
    push_bytes_entry(&mut pairs, 5, &c.dest_hpke);
    push_entry(&mut pairs, 6, Value::Uint(c.last_discovery_unix));
    push_entry(&mut pairs, 7, Value::Uint(if c.revoked { 1 } else { 0 }));
    push_entry(&mut pairs, 8, Value::Text(c.home_origin.clone()));
    proof {
        assert(view_entries(Seq::<(u64, Value)>::empty()) == Seq::<(u64, ValueSpec)>::empty());
        assert(view_entries(pairs@) =~= contact_entries(c@));
    }
    Value::Dict(pairs)
}

fn group_to_value(g: &HostGroup) -> (v: Value)
    ensures
        v@ == group_value(g@),
{
    let mut items: Vec<Value> = Vec::new();
    push_item(&mut items, Value::Bytes(array_to_vec(&g.group_id)));
    push_item(&mut items, Value::Bytes(array_to_vec(&g.cred.credential_id)));
    push_item(&mut items, Value::Bytes(array_to_vec(&g.cred.credential_secret)));
    push_item(&mut items, Value::Text(g.host_base.clone()));
    proof {
        assert(view_items(Seq::<Value>::empty()) == Seq::<ValueSpec>::empty());
        assert(view_items(items@) =~= seq![
            ValueSpec::Bytes(g@.group_id),
            ValueSpec::Bytes(g@.credential_id),
            ValueSpec::Bytes(g@.credential_secret),
            ValueSpec::Text(g@.host_base),
        ]);
    }
    Value::Array(items)
}

impl HomeState {
    /// The stored form.
    pub fn encode(&self) -> (r: Vec<u8>)
        ensures
            r@ == enc(ValueSpec::Dict(state_entries(self@))),
            well_formed(ValueSpec::Dict(state_entries(self@))),
    {
        let mut contacts: Vec<Value> = Vec::new();
        let mut i: usize = 0;
        assert(view_items(contacts@) =~= contact_values(self@.contacts.take(0)));
        while i < self.contacts.len()
            invariant
                i <= self.contacts@.len(),
                view_items(contacts@) == contact_values(self@.contacts.take(i as int)),
            decreases self.contacts@.len() - i,
        {
            let v = contact_to_value(&self.contacts[i]);
            push_item(&mut contacts, v);
            i = i + 1;
            assert(contact_values(self@.contacts.take(i as int)) =~= contact_values(
                self@.contacts.take(i - 1),
            ).push(contact_value(self@.contacts[i - 1])));
        }
        assert(self@.contacts.take(i as int) =~= self@.contacts);
        let mut groups: Vec<Value> = Vec::new();
        let mut j: usize = 0;
        assert(view_items(groups@) =~= group_values(self@.groups.take(0)));
        while j < self.groups.len()
            invariant
                j <= self.groups@.len(),
                view_items(groups@) == group_values(self@.groups.take(j as int)),
            decreases self.groups@.len() - j,
        {
            let v = group_to_value(&self.groups[j]);
            push_item(&mut groups, v);
            j = j + 1;
            assert(group_values(self@.groups.take(j as int)) =~= group_values(
                self@.groups.take(j - 1),
            ).push(group_value(self@.groups[j - 1])));
        }
        assert(self@.groups.take(j as int) =~= self@.groups);
        let mut pairs: Vec<(u64, Value)> = Vec::new();
        push_entry(&mut pairs, 0, Value::Uint(STATE_VERSION));
        push_bytes_entry(&mut pairs, 1, self.bundle.as_slice());
        push_entry(&mut pairs, 2, Value::Uint(self.cursor));
        push_entry(&mut pairs, 3, Value::Array(contacts));
        push_entry(&mut pairs, 4, Value::Array(groups));
        push_entry(&mut pairs, 5, Value::Text(self.home_base.clone()));
        push_entry(&mut pairs, 6, Value::Uint(crate::home::privacy_to_u64(self.privacy)));
        proof {
            assert(view_entries(Seq::<(u64, Value)>::empty()) == Seq::<(u64, ValueSpec)>::empty());
            assert(view_entries(pairs@) =~= state_entries(self@));
        }
        crate::cbor::encode(&Value::Dict(pairs))
    }
}

// ---------------------------------------------------------------------------
// Reading the stored form back
// ---------------------------------------------------------------------------

pub open spec fn uint_field(m: Seq<(u64, ValueSpec)>, k: u64) -> Result<u64, StoreFault> {
    match lookup(m, k) {
        Some(ValueSpec::Uint(n)) => Ok(n),
        _ => Err(StoreFault::Corrupt),
    }
}

pub open spec fn bytes_field(m: Seq<(u64, ValueSpec)>, k: u64) -> Result<Seq<u8>, StoreFault> {
    match lookup(m, k) {
        Some(ValueSpec::Bytes(b)) => Ok(b),
        _ => Err(StoreFault::Corrupt),
    }
}

pub open spec fn array_field(m: Seq<(u64, ValueSpec)>, k: u64) -> Result<Seq<ValueSpec>, StoreFault> {
    match lookup(m, k) {
        Some(ValueSpec::Array(a)) => Ok(a),
        _ => Err(StoreFault::Corrupt),
    }
}

/// An optional text field: absent reads as empty.
pub open spec fn text_field_opt(m: Seq<(u64, ValueSpec)>, k: u64) -> Result<Seq<char>, StoreFault> {
    match lookup(m, k) {
        None => Ok(seq![]),
        Some(ValueSpec::Text(t)) => Ok(t),
        Some(_) => Err(StoreFault::Corrupt),
    }
}

/// Fields are read in key order; the first that fails decides the error.
pub open spec fn contact_from(v: ValueSpec) -> Result<ContactView, StoreFault> {
    match v {
        ValueSpec::Dict(m) => match key_field(m, 0) {
            Err(f) => Err(f),
            Ok(id) => match key_field(m, 1) {
                Err(f) => Err(f),
                Ok(pk) => match key_field(m, 2) {
                    Err(f) => Err(f),
                    Ok(rk) => match uint_field(m, 3) {
                        Err(f) => Err(f),
                        Ok(seq) => match key_field(m, 4) {
                            Err(f) => Err(f),
                            Ok(cap) => match key_field(m, 5) {
                                Err(f) => Err(f),
                                Ok(hpke) => match uint_field(m, 6) {
                                    Err(f) => Err(f),
                                    Ok(last) => match uint_field(m, 7) {
                                        Err(f) => Err(f),
                                        Ok(rev) => match text_field_opt(m, 8) {
                                            Err(f) => Err(f),
                                            Ok(origin) => Ok(
                                                ContactView {
                                                    id,
                                                    public_key: pk,
                                                    revocation_key: rk,
                                                    seq,
                                                    capability: cap,
                                                    hpke,
                                                    last_discovery: last,
                                                    revoked: rev != 0,
                                                    home_origin: origin,
                                                },
                                            ),
                                        },
                                    },
                                },
                            },
                        },
                    },
                },
            },
        },
        _ => Err(StoreFault::Corrupt),
    }
}

/// Contacts in stored order, each put in by id; a later one with the same
/// id replaces the earlier.
pub open spec fn contacts_from(items: Seq<ValueSpec>) -> Result<Seq<ContactView>, StoreFault>
    decreases items.len(),
{
    if items.len() == 0 {
        Ok(seq![])
    } else {
        match contacts_from(items.drop_last()) {
            Err(f) => Err(f),
            Ok(s) => match contact_from(items.last()) {
                Err(f) => Err(f),
                Ok(c) => Ok(insert_contact_spec(s, c)),
            },
        }
    }
}

/// A group key: anything but a byte string of [`KEY_LEN`] bytes is a wire
/// error.
pub open spec fn group_key(v: ValueSpec) -> Result<Seq<u8>, StoreFault> {
    match v {
        ValueSpec::Bytes(b) => if b.len() == KEY_LEN {
            Ok(b)
        } else {
            Err(StoreFault::Wire)
        },
        _ => Err(StoreFault::Wire),
    }
}

/// A group row has three or four members; the host origin is optional.
pub open spec fn group_from(v: ValueSpec) -> Result<GroupView, StoreFault> {
    match v {
        ValueSpec::Array(row) => if row.len() != 3 && row.len() != 4 {
            Err(StoreFault::Corrupt)
        } else {
            match group_key(row[0]) {
                Err(f) => Err(f),
                Ok(gid) => match group_key(row[1]) {
                    Err(f) => Err(f),
                    Ok(cid) => match group_key(row[2]) {
                        Err(f) => Err(f),
                        Ok(sec) => if row.len() == 4 {
                            match row[3] {
                                ValueSpec::Text(t) => Ok(
                                    GroupView {
                                        group_id: gid,
                                        credential_id: cid,
                                        credential_secret: sec,
                                        host_base: t,
                                    },
                                ),
                                _ => Err(StoreFault::Corrupt),
                            }
                        } else {
                            Ok(
                                GroupView {
                                    group_id: gid,
                                    credential_id: cid,
                                    credential_secret: sec,
                                    host_base: seq![],
                                },
                            )
                        },
                    },
                },
            }
        },
        _ => Err(StoreFault::Corrupt),
    }
}

pub open spec fn groups_from(items: Seq<ValueSpec>) -> Result<Seq<GroupView>, StoreFault>
    decreases items.len(),
{
    if items.len() == 0 {
        Ok(seq![])
    } else {
        match groups_from(items.drop_last()) {
            Err(f) => Err(f),
            Ok(s) => match group_from(items.last()) {
                Err(f) => Err(f),
                Ok(g) => Ok(s.push(g)),
            },
        }
    }
}

pub open spec fn privacy_of(n: u64) -> Option<PrivacyMode> {
    if n == 0 {
        Some(PrivacyMode::Normal)
    } else if n == 1 {
        Some(PrivacyMode::Private)
    } else if n == 2 {
        Some(PrivacyMode::High)
    } else if n == 3 {
        Some(PrivacyMode::Maximum)
    } else {
        None
    }
}

/// The privacy mode; states written before it existed read as normal.
pub open spec fn privacy_field(m: Seq<(u64, ValueSpec)>) -> Result<PrivacyMode, StoreFault> {
    match lookup(m, 6) {
        None => Ok(PrivacyMode::Normal),
        Some(ValueSpec::Uint(n)) => match privacy_of(n) {
            Some(p) => Ok(p),
            None => Err(StoreFault::Corrupt),
        },
        Some(_) => Err(StoreFault::Corrupt),
    }
}

pub open spec fn state_from(m: Seq<(u64, ValueSpec)>) -> Result<StateView, StoreFault> {
    match uint_field(m, 0) {
        Err(f) => Err(f),
        Ok(v) => if v != STATE_VERSION {
            Err(StoreFault::Corrupt)
        } else {
            match bytes_field(m, 1) {
                Err(f) => Err(f),
                Ok(bundle) => match uint_field(m, 2) {
                    Err(f) => Err(f),
                    Ok(cursor) => match array_field(m, 3) {
                        Err(f) => Err(f),
                        Ok(citems) => match contacts_from(citems) {
                            Err(f) => Err(f),
                            Ok(contacts) => match array_field(m, 4) {
                                Err(f) => Err(f),
                                Ok(gitems) => match groups_from(gitems) {
                                    Err(f) => Err(f),
                                    Ok(groups) => match text_field_opt(m, 5) {
                                        Err(f) => Err(f),
                                        Ok(home_base) => match privacy_field(m) {
                                            Err(f) => Err(f),
                                            Ok(privacy) => Ok(
                                                StateView {
                                                    bundle,
                                                    cursor,
                                                    contacts,
                                                    groups,
                                                    home_base,
                                                    privacy,
                                                },
                                            ),
                                        },
                                    },
                                },
                            },
                        },
                    },
                },
            }
        },
    }
}

/// What stored bytes read back as.
pub open spec fn state_decoded(b: Seq<u8>) -> Result<StateView, StoreFault> {
    match parse(b, 0) {
        Some((ValueSpec::Dict(m), n)) => if n == b.len() {
            state_from(m)
        } else {
            Err(StoreFault::Corrupt)
        },
        _ => Err(StoreFault::Corrupt),
    }
}

pub(crate) fn read_uint(m: &[(u64, Value)], k: u64) -> (r: Result<u64, CoreError>)
    ensures
        match uint_field(view_entries(m@), k) {
            Ok(n) => r == Ok::<u64, CoreError>(n),
            Err(f) => r matches Err(e) && store_reports(e, f),
        },
{
    match map_get(m, k) {
        Some(Value::Uint(n)) => Ok(*n),
        _ => Err(CoreError::VaultCorrupt),
    }
}

fn read_text_opt(m: &[(u64, Value)], k: u64) -> (r: Result<String, CoreError>)
    ensures
        match text_field_opt(view_entries(m@), k) {
            Ok(t) => r matches Ok(x) && x@ == t,
            Err(f) => r matches Err(e) && store_reports(e, f),
        },
{
    match map_get(m, k) {
        None => Ok(String::new()),
        Some(Value::Text(t)) => Ok(t.clone()),
        Some(_) => Err(CoreError::VaultCorrupt),
    }
}

fn read_contact(v: &Value) -> (r: Result<StoredContact, CoreError>)
    ensures
        match contact_from(v@) {
            Ok(c) => r matches Ok(x) && x@ == c,
            Err(f) => r matches Err(e) && store_reports(e, f),
        },
{
    let m = match v {
        Value::Dict(m) => m,
        _ => {
            return Err(CoreError::VaultCorrupt);
        },
    };
    let id = read_key_field(m.as_slice(), 0)?;
    let pk = read_key_field(m.as_slice(), 1)?;
    let rk = read_key_field(m.as_slice(), 2)?;
    let seq = read_uint(m.as_slice(), 3)?;
    let cap = read_key_field(m.as_slice(), 4)?;
    let hpke = read_key_field(m.as_slice(), 5)?;
    let last = read_uint(m.as_slice(), 6)?;
    let rev = read_uint(m.as_slice(), 7)?;
    let origin = read_text_opt(m.as_slice(), 8)?;
    Ok(
        StoredContact {
            pin: ContactPin {
                identity_id: id,
                identity_public_key: pk,
                revocation_public_key: rk,
                seq,
            },
            delivery_capability: cap,
            dest_hpke: hpke,
            last_discovery_unix: last,
            revoked: rev != 0,
            home_origin: origin,
        },
    )
}

fn read_group_key(v: &Value) -> (r: Result<[u8; KEY_LEN], CoreError>)
    ensures
        match group_key(v@) {
            Ok(b) => r matches Ok(a) && a@ == b,
            Err(f) => r matches Err(e) && store_reports(e, f),
        },
{
    match v {
        Value::Bytes(b) => match crate::ids::copy_key(b.as_slice()) {
            Some(a) => Ok(a),
            None => Err(CoreError::Wire(String::from_str("key length"))),
        },
        _ => Err(CoreError::Wire(String::from_str("expected bytes"))),
    }
}

fn read_group(v: &Value) -> (r: Result<HostGroup, CoreError>)
    ensures
        match group_from(v@) {
            Ok(g) => r matches Ok(x) && x@ == g,
            Err(f) => r matches Err(e) && store_reports(e, f),
        },
{
    let row = match v {
        Value::Array(row) => row,
        _ => {
            return Err(CoreError::VaultCorrupt);
        },
    };
    proof {
        crate::cbor::lemma_view_items_len(row@);
    }
    let n = row.len();
    if n != 3 && n != 4 {
        return Err(CoreError::VaultCorrupt);
    }
    proof {
        lemma_view_items_index(row@);
    }
    let group_id = read_group_key(&row[0])?;
    let credential_id = read_group_key(&row[1])?;
    let credential_secret = read_group_key(&row[2])?;
    let host_base = if n == 4 {
        match &row[3] {
            Value::Text(t) => t.clone(),
            _ => {
                return Err(CoreError::VaultCorrupt);
            },
        }
    } else {
        String::new()
    };
    Ok(HostGroup { group_id, cred: HostCred { credential_id, credential_secret }, host_base })
}

proof fn lemma_view_items_index(s: Seq<Value>)
    ensures
        view_items(s).len() == s.len(),
        forall|i: int| 0 <= i < s.len() ==> #[trigger] view_items(s)[i] == s[i]@,
    decreases s.len(),
{
    if s.len() > 0 {
        lemma_view_items_index(s.drop_last());
        assert forall|i: int| 0 <= i < s.len() implies #[trigger] view_items(s)[i] == s[i]@ by {
            if i < s.len() - 1 {
                assert(s.drop_last()[i] == s[i]);
            }
        }
    }
}

/// Once a prefix of the stored contacts fails, the whole list fails the
/// same way.
proof fn lemma_contacts_err_extends(s: Seq<ValueSpec>, k: int)
    requires
        0 <= k <= s.len(),
        contacts_from(s.take(k)) is Err,
    ensures
        contacts_from(s) == contacts_from(s.take(k)),
    decreases s.len() - k,
{
    if k < s.len() {
        assert(s.take(k + 1).drop_last() =~= s.take(k));
        lemma_contacts_err_extends(s, k + 1);
    } else {
        assert(s.take(k) =~= s);
    }
}

proof fn lemma_groups_err_extends(s: Seq<ValueSpec>, k: int)
    requires
        0 <= k <= s.len(),
        groups_from(s.take(k)) is Err,
    ensures
        groups_from(s) == groups_from(s.take(k)),
    decreases s.len() - k,
{
    if k < s.len() {
        assert(s.take(k + 1).drop_last() =~= s.take(k));
        lemma_groups_err_extends(s, k + 1);
    } else {
        assert(s.take(k) =~= s);
    }
}

fn read_contacts(items: &Vec<Value>) -> (r: Result<Vec<StoredContact>, CoreError>)
    ensures
        match contacts_from(view_items(items@)) {
            Ok(s) => r matches Ok(x) && contacts_view(x@) == s,
            Err(f) => r matches Err(e) && store_reports(e, f),
        },
{
    let ghost vi = view_items(items@);
    proof {
        lemma_view_items_index(items@);
    }
    let mut out: Vec<StoredContact> = Vec::new();
    let mut i: usize = 0;
    assert(vi.take(0) =~= Seq::<ValueSpec>::empty());
    assert(contacts_view(out@) =~= Seq::<ContactView>::empty());
    while i < items.len()
        invariant
            i <= items@.len(),
            vi == view_items(items@),
            vi.len() == items@.len(),
            forall|j: int| 0 <= j < items@.len() ==> #[trigger] vi[j] == items@[j]@,
            contacts_from(vi.take(i as int)) == Ok::<Seq<ContactView>, StoreFault>(contacts_view(out@)),
        decreases items@.len() - i,
    {
        assert(vi.take(i + 1).drop_last() =~= vi.take(i as int));
        assert(vi.take(i + 1).last() == items@[i as int]@);
        let c = match read_contact(&items[i]) {
            Ok(c) => c,
            Err(e) => {
                proof {
                    lemma_contacts_err_extends(vi, i + 1);
                }
                return Err(e);
            },
        };
        insert_contact(&mut out, c);
        i = i + 1;
    }
    assert(vi.take(i as int) =~= vi);
    Ok(out)
}

fn read_groups(items: &Vec<Value>) -> (r: Result<Vec<HostGroup>, CoreError>)
    ensures
        match groups_from(view_items(items@)) {
            Ok(s) => r matches Ok(x) && groups_view(x@) == s,
            Err(f) => r matches Err(e) && store_reports(e, f),
        },
{
    let ghost vi = view_items(items@);
    proof {
        lemma_view_items_index(items@);
    }
    let mut out: Vec<HostGroup> = Vec::new();
    let mut i: usize = 0;
    assert(vi.take(0) =~= Seq::<ValueSpec>::empty());
    assert(groups_view(out@) =~= Seq::<GroupView>::empty());
    while i < items.len()
        invariant
            i <= items@.len(),
            vi == view_items(items@),
            vi.len() == items@.len(),
            forall|j: int| 0 <= j < items@.len() ==> #[trigger] vi[j] == items@[j]@,
            groups_from(vi.take(i as int)) == Ok::<Seq<GroupView>, StoreFault>(groups_view(out@)),
        decreases items@.len() - i,
    {
        assert(vi.take(i + 1).drop_last() =~= vi.take(i as int));
        assert(vi.take(i + 1).last() == items@[i as int]@);
        let g = match read_group(&items[i]) {
            Ok(g) => g,
            Err(e) => {
                proof {
                    lemma_groups_err_extends(vi, i + 1);
                }
                return Err(e);
            },
        };
        let ghost before = groups_view(out@);
        out.push(g);
        assert(groups_view(out@) =~= before.push(g@));
        i = i + 1;
    }
    assert(vi.take(i as int) =~= vi);
    Ok(out)
}

fn read_privacy(m: &[(u64, Value)]) -> (r: Result<PrivacyMode, CoreError>)
    ensures
        match privacy_field(view_entries(m@)) {
            Ok(p) => r == Ok::<PrivacyMode, CoreError>(p),
            Err(f) => r matches Err(e) && store_reports(e, f),
        },
{
    match map_get(m, 6) {
        None => Ok(PrivacyMode::Normal),
        Some(Value::Uint(n)) => match *n {
            0 => Ok(PrivacyMode::Normal),
            1 => Ok(PrivacyMode::Private),
            2 => Ok(PrivacyMode::High),
            3 => Ok(PrivacyMode::Maximum),
            _ => Err(CoreError::VaultCorrupt),
        },
        Some(_) => Err(CoreError::VaultCorrupt),
    }
}

proof fn lemma_insert_keys(s: Seq<ContactView>, c: ContactView)
    requires
        forall|i: int| 0 <= i < s.len() ==> contact_keys_ok(#[trigger] s[i]),
        contact_keys_ok(c),
    ensures
        forall|i: int| 0 <= i < insert_contact_spec(s, c).len() ==> contact_keys_ok(
            #[trigger] insert_contact_spec(s, c)[i],
        ),
    decreases s.len(),
{
    let r = insert_contact_spec(s, c);
    if s.len() > 0 && !id_lt(s.last().id, c.id) && s.last().id != c.id {
        assert forall|i: int| 0 <= i < s.drop_last().len() implies contact_keys_ok(
            #[trigger] s.drop_last()[i],
        ) by {
            assert(s.drop_last()[i] == s[i]);
        }
        lemma_insert_keys(s.drop_last(), c);
        let r0 = insert_contact_spec(s.drop_last(), c);
        assert forall|i: int| 0 <= i < r.len() implies contact_keys_ok(#[trigger] r[i]) by {
            if i < r0.len() {
                assert(r[i] == r0[i]);
            } else {
                assert(r[i] == s[s.len() - 1]);
            }
        }
    } else if s.len() > 0 {
        assert forall|i: int| 0 <= i < r.len() implies contact_keys_ok(#[trigger] r[i]) by {
            if i < s.len() - 1 {
                assert(r[i] == s[i]);
            } else if i == s.len() - 1 && id_lt(s.last().id, c.id) {
                assert(r[i] == s[i]);
            }
        }
    }
}

/// What decoding gives is a state that can be held.
proof fn lemma_contacts_from_ok(items: Seq<ValueSpec>)
    ensures
        contacts_from(items) matches Ok(s) ==> sorted_contacts(s) && forall|i: int|
            0 <= i < s.len() ==> contact_keys_ok(#[trigger] s[i]),
    decreases items.len(),
{
    if items.len() > 0 {
        lemma_contacts_from_ok(items.drop_last());
        if let Ok(s) = contacts_from(items.drop_last()) {
            if let Ok(c) = contact_from(items.last()) {
                assert forall|i: int| 0 <= i < s.len() implies (#[trigger] s[i]).id.len() == KEY_LEN by {
                    assert(contact_keys_ok(s[i]));
                }
                lemma_insert_sorted(s, c);
                lemma_insert_keys(s, c);
            }
        }
    }
}

proof fn lemma_groups_from_ok(items: Seq<ValueSpec>)
    ensures
        groups_from(items) matches Ok(s) ==> forall|i: int|
            0 <= i < s.len() ==> group_keys_ok(#[trigger] s[i]),
    decreases items.len(),
{
    if items.len() > 0 {
        lemma_groups_from_ok(items.drop_last());
        if let Ok(s) = groups_from(items.drop_last()) {
            if let Ok(g) = group_from(items.last()) {
                assert forall|i: int| 0 <= i < s.push(g).len() implies group_keys_ok(#[trigger] s.push(g)[i]) by {
                    if i < s.len() {
                        assert(s.push(g)[i] == s[i]);
                    }
                }
            }
        }
    }
}

/// Whatever reads back is a state that can be held.
pub proof fn lemma_decoded_ok(b: Seq<u8>)
    ensures
        state_decoded(b) matches Ok(s) ==> state_ok(s),
{
    if let Some((ValueSpec::Dict(m), n)) = parse(b, 0) {
        if let Ok(citems) = array_field(m, 3) {
            lemma_contacts_from_ok(citems);
        }
        if let Ok(gitems) = array_field(m, 4) {
            lemma_groups_from_ok(gitems);
        }
    }
}

/// The position of the contact with identity `id`.
pub fn find_contact(contacts: &Vec<StoredContact>, id: &[u8; KEY_LEN]) -> (r: Option<usize>)
    ensures
        match r {
            Some(i) => i < contacts@.len() && contacts@[i as int].pin.identity_id@ == id@,
            None => forall|i: int| 0 <= i < contacts@.len() ==> #[trigger] contacts@[i].pin.identity_id@ != id@,
        },
{
    let mut i: usize = 0;
    while i < contacts.len()
        invariant
            i <= contacts@.len(),
            forall|j: int| 0 <= j < i ==> #[trigger] contacts@[j].pin.identity_id@ != id@,
        decreases contacts@.len() - i,
    {
        if order_ids(&contacts[i].pin.identity_id, id) == IdOrder::Same {
            return Some(i);
        }
        i = i + 1;
    }
    None
}

impl HomeState {
    /// Reads the stored form back.
    pub fn decode(bytes: &[u8]) -> (r: Result<HomeState, CoreError>)
        ensures
            match state_decoded(bytes@) {
                Ok(s) => r matches Ok(x) && x@ == s,
                Err(f) => r matches Err(e) && store_reports(e, f),
            },
            r matches Ok(x) ==> state_ok(x@),
    {
        proof {
            lemma_decoded_ok(bytes@);
        }
        let m = match crate::cbor::decode(bytes) {
            Some(Value::Dict(m)) => m,
            _ => {
                return Err(CoreError::VaultCorrupt);
            },
        };
        let m = m.as_slice();
        let version = read_uint(m, 0)?;
        if version != STATE_VERSION {
            return Err(CoreError::VaultCorrupt);
        }
        let bundle = match map_get(m, 1) {
            Some(Value::Bytes(b)) => array_to_vec(b.as_slice()),
            _ => {
                return Err(CoreError::VaultCorrupt);
            },
        };
        let cursor = read_uint(m, 2)?;
        let contacts = match map_get(m, 3) {
            Some(Value::Array(items)) => read_contacts(items)?,
            _ => {
                return Err(CoreError::VaultCorrupt);
            },
        };
        let groups = match map_get(m, 4) {
            Some(Value::Array(items)) => read_groups(items)?,
            _ => {
                return Err(CoreError::VaultCorrupt);
            },
        };
        let home_base = read_text_opt(m, 5)?;
        let privacy = read_privacy(m)?;
        Ok(HomeState { bundle, cursor, contacts, groups, home_base, privacy })
    }
}

// ---------------------------------------------------------------------------
// What is stored reads back
// ---------------------------------------------------------------------------

proof fn lemma_contact_roundtrip(c: ContactView)
    requires
        contact_keys_ok(c),
    ensures
        contact_from(contact_value(c)) == Ok::<ContactView, StoreFault>(c),
{
    reveal_with_fuel(lookup, 10);
    let e = contact_entries(c);
    assert(lookup(e, 0) == Some(ValueSpec::Bytes(c.id)));
    assert(lookup(e, 8) == Some(ValueSpec::Text(c.home_origin)));
}

proof fn lemma_contacts_roundtrip(s: Seq<ContactView>)
    requires
        sorted_contacts(s),
        forall|i: int| 0 <= i < s.len() ==> contact_keys_ok(#[trigger] s[i]),
    ensures
        contacts_from(contact_values(s)) == Ok::<Seq<ContactView>, StoreFault>(s),
    decreases s.len(),
{
    if s.len() > 0 {
        let d = s.drop_last();
        assert(contact_values(s).drop_last() =~= contact_values(d));
        assert(sorted_contacts(d)) by {
            assert forall|i: int, j: int| 0 <= i < j < d.len() implies #[trigger] id_lt(d[i].id, d[j].id) by {
                assert(id_lt(s[i].id, s[j].id));
            }
        }
        assert forall|i: int| 0 <= i < d.len() implies contact_keys_ok(#[trigger] d[i]) by {
            assert(d[i] == s[i]);
        }
        lemma_contacts_roundtrip(d);
        assert(contact_keys_ok(s[s.len() - 1]));
        lemma_contact_roundtrip(s.last());
        assert(contact_values(s).last() == contact_value(s.last()));
        assert(d.push(s.last()) =~= s);
        if d.len() > 0 {
            assert(id_lt(s[d.len() - 1].id, s[s.len() - 1].id));
            assert(d.last() == s[d.len() - 1]);
            assert(insert_contact_spec(d, s.last()) == d.push(s.last()));
        } else {
            assert(insert_contact_spec(d, s.last()) =~= s);
        }
        assert(contact_values(s).len() > 0);
        assert(contacts_from(contact_values(s).drop_last()) == Ok::<Seq<ContactView>, StoreFault>(d));
        assert(contact_from(contact_values(s).last()) == Ok::<ContactView, StoreFault>(s.last()));
    } else {
        assert(contact_values(s) =~= Seq::<ValueSpec>::empty());
        assert(s =~= Seq::<ContactView>::empty());
    }
}

proof fn lemma_groups_roundtrip(s: Seq<GroupView>)
    requires
        forall|i: int| 0 <= i < s.len() ==> group_keys_ok(#[trigger] s[i]),
    ensures
        groups_from(group_values(s)) == Ok::<Seq<GroupView>, StoreFault>(s),
    decreases s.len(),
{
    if s.len() > 0 {
        let d = s.drop_last();
        assert(group_values(s).drop_last() =~= group_values(d));
        assert forall|i: int| 0 <= i < d.len() implies group_keys_ok(#[trigger] d[i]) by {
            assert(d[i] == s[i]);
        }
        lemma_groups_roundtrip(d);
        assert(group_keys_ok(s[s.len() - 1]));
        assert(group_values(s).last() == group_value(s.last()));
        assert(group_from(group_value(s.last())) == Ok::<GroupView, StoreFault>(s.last()));
        assert(group_values(s).len() > 0);
        assert(d.push(s.last()) =~= s);
        assert(groups_from(group_values(s).drop_last()) == Ok::<Seq<GroupView>, StoreFault>(d));
    } else {
        assert(group_values(s) =~= Seq::<ValueSpec>::empty());
        assert(s =~= Seq::<GroupView>::empty());
    }
}

proof fn lemma_state_nesting(s: StateView)
    ensures
        nesting(ValueSpec::Dict(state_entries(s))) <= 3,
{
    let cv = contact_values(s.contacts);
    assert forall|i: int| 0 <= i < cv.len() implies nesting(#[trigger] cv[i]) <= 1 by {
        let e = contact_entries(s.contacts[i]);
        assert forall|j: int| 0 <= j < e.len() implies nesting(#[trigger] e[j].1) <= 0 by {}
        lemma_nesting_entries_bound(e, 0);
    }
    lemma_nesting_items_bound(cv, 1);
    let gv = group_values(s.groups);
    assert forall|i: int| 0 <= i < gv.len() implies nesting(#[trigger] gv[i]) <= 1 by {
        let g = s.groups[i];
        let items = seq![
            ValueSpec::Bytes(g.group_id),
            ValueSpec::Bytes(g.credential_id),
            ValueSpec::Bytes(g.credential_secret),
            ValueSpec::Text(g.host_base),
        ];
        assert forall|j: int| 0 <= j < items.len() implies nesting(#[trigger] items[j]) <= 0 by {}
        lemma_nesting_items_bound(items, 0);
    }
    lemma_nesting_items_bound(gv, 1);
    let e = state_entries(s);
    assert forall|j: int| 0 <= j < e.len() implies nesting(#[trigger] e[j].1) <= 2 by {}
    lemma_nesting_entries_bound(e, 2);
}

/// A stored home binding reads back as the same state: bundle, cursor,
/// every contact, every group, the home origin and the privacy mode.
pub proof fn law_state_roundtrip(s: StateView)
    requires
        state_ok(s),
        well_formed(ValueSpec::Dict(state_entries(s))),
    ensures
        state_decoded(enc(ValueSpec::Dict(state_entries(s)))) == Ok::<StateView, StoreFault>(s),
{
    let e = state_entries(s);
    lemma_state_nesting(s);
    law_decode_encode(ValueSpec::Dict(e));
    reveal_with_fuel(lookup, 8);
    assert(lookup(e, 3) == Some(ValueSpec::Array(contact_values(s.contacts))));
    assert(lookup(e, 4) == Some(ValueSpec::Array(group_values(s.groups))));
    assert(lookup(e, 6) == Some(ValueSpec::Uint(privacy_code(s.privacy))));
    lemma_contacts_roundtrip(s.contacts);
    lemma_groups_roundtrip(s.groups);
}

/// The groups after a move to another home: a group hosted on the current
/// home (empty origin) is now hosted at the old home's origin.
pub open spec fn moved_groups(gs: Seq<GroupView>, old_base: Seq<char>) -> Seq<GroupView> {
    Seq::new(
        gs.len(),
        |i: int|
            if gs[i].host_base.len() == 0 {
                GroupView { host_base: old_base, ..gs[i] }
            } else {
                gs[i]
            },
    )
}

impl HomeState {
    /// Sets the home's HTTP origin, without trailing slashes.
    pub fn set_home_base(&mut self, base: &str)
        ensures
            final(self)@ == (StateView { home_base: trim_slashes(base@), ..old(self)@ }),
    {
        self.home_base = trim_slashes_str(base);
    }

    /// The state after the identity moved to another home (whose bundle
    /// and origin are given): contacts and groups stay, groups hosted on
    /// the old home keep being reached there, and the mailbox cursor
    /// starts over.
    pub fn rehome(&mut self, bundle: Vec<u8>, new_base: &str)
        ensures
            final(self)@ == (StateView {
                bundle: bundle@,
                cursor: 0,
                groups: moved_groups(old(self)@.groups, old(self)@.home_base),
                home_base: trim_slashes(new_base@),
                ..old(self)@
            }),
            state_ok(old(self)@) ==> state_ok(final(self)@),
    {
        let ghost before = old(self)@;
        let mut groups: Vec<HostGroup> = Vec::new();
        std::mem::swap(&mut groups, &mut self.groups);
        let mut out: Vec<HostGroup> = Vec::new();
        let mut i: usize = 0;
        while i < groups.len()
            invariant
                i <= groups@.len(),
                groups_view(groups@) == before.groups,
                self.home_base@ == before.home_base,
                groups_view(out@) == moved_groups(before.groups, before.home_base).take(i as int),
            decreases groups@.len() - i,
        {
            let g = &groups[i];
            let host_base = if g.host_base.as_str().is_empty() {
                self.home_base.clone()
            } else {
                g.host_base.clone()
            };
            proof {
                assert(before.groups[i as int] == groups@[i as int]@);
            }
            let ghost ov = groups_view(out@);
            out.push(HostGroup { group_id: g.group_id, cred: g.cred, host_base });
            assert(groups_view(out@) =~= ov.push(moved_groups(before.groups, before.home_base)[i as int]));
            assert(moved_groups(before.groups, before.home_base).take(i + 1) =~= moved_groups(
                before.groups,
                before.home_base,
            ).take(i as int).push(moved_groups(before.groups, before.home_base)[i as int]));
            i = i + 1;
        }
        assert(moved_groups(before.groups, before.home_base).take(i as int) =~= moved_groups(
            before.groups,
            before.home_base,
        ));
        self.groups = out;
        self.bundle = bundle;
        self.cursor = 0;
        self.set_home_base(new_base);
    }
}

} // verus!
