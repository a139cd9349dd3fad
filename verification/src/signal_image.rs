//! The stored form of an installation's Signal protocol store: its
//! identity key pair and registration id, the identities it has seen, its
//! one-time, signed and Kyber prekeys, the Kyber base keys already used,
//! and its sessions. Records are held in their serialized form; every map
//! is kept, and written, in key order (addresses by name bytes, then
//! device).

use vstd::prelude::*;
use vstd::utf8::encode_utf8;
use crate::cbor::{
    Value, ValueSpec, enc, parse, lookup, map_get, view_items, view_entries, well_formed, nesting,
    law_decode_encode, lemma_nesting_items_bound, lemma_nesting_entries_bound, lemma_view_items_push,
    lemma_view_entries_push, lemma_view_items_len,
};
use crate::error::CoreError;
use crate::ids::array_to_vec;
use crate::keyed::{
    put, put_spec, put_all, sorted_keys, entries_view, lemma_put_sorted, lemma_put_all_sorted, OrderedKey,
    KeyOrder, key_value, find_key, law_sorted_unique, order_bytes, bytes_below, lemma_bytes_transitive, lemma_bytes_total, lemma_bytes_asymmetric,
};

verus! {

broadcast use vstd::utf8::encode_utf8_decode_utf8;

/// Devices are numbered up to this.
pub const MAX_DEVICE: u64 = 127;

// ---------------------------------------------------------------------------
// Protocol addresses
// ---------------------------------------------------------------------------

/// A protocol address: a name and a device number.
#[derive(Clone, Debug, PartialEq, Eq)]
pub struct Address {
    pub name: String,
    pub device: u32,
}

pub struct AddressView {
    pub name: Seq<char>,
    pub device: u32,
}

impl View for Address {
    type V = AddressView;

    open spec fn view(&self) -> AddressView {
        AddressView { name: self.name@, device: self.device }
    }
}

/// Addresses are ordered by name (in byte order), then by device.
impl OrderedKey for Address {
    open spec fn below(a: AddressView, b: AddressView) -> bool {
        bytes_below(encode_utf8(a.name), encode_utf8(b.name)) || (a.name == b.name && a.device < b.device)
    }

    proof fn lemma_below_irreflexive(a: AddressView) {
    }

    proof fn lemma_below_transitive(a: AddressView, b: AddressView, c: AddressView) {
        let (ea, eb, ec) = (encode_utf8(a.name), encode_utf8(b.name), encode_utf8(c.name));
        if bytes_below(ea, eb) && bytes_below(eb, ec) {
            lemma_bytes_transitive(ea, eb, ec);
        }
    }

    proof fn lemma_below_total(a: AddressView, b: AddressView) {
        lemma_bytes_total(encode_utf8(a.name), encode_utf8(b.name));
        assert(vstd::utf8::decode_utf8(encode_utf8(a.name)) == a.name);
        assert(vstd::utf8::decode_utf8(encode_utf8(b.name)) == b.name);
    }

    fn order(&self, other: &Self) -> (r: KeyOrder) {
        proof {
            lemma_bytes_total(encode_utf8(self@.name), encode_utf8(other@.name));
            assert(vstd::utf8::decode_utf8(encode_utf8(self@.name)) == self@.name);
            assert(vstd::utf8::decode_utf8(encode_utf8(other@.name)) == other@.name);
            if bytes_below(encode_utf8(self@.name), encode_utf8(other@.name)) {
                lemma_bytes_asymmetric(encode_utf8(self@.name), encode_utf8(other@.name));
            }
            if bytes_below(encode_utf8(other@.name), encode_utf8(self@.name)) {
                lemma_bytes_asymmetric(encode_utf8(other@.name), encode_utf8(self@.name));
            }
        }
        match self.name.order(&other.name) {
            KeyOrder::Below => KeyOrder::Below,
            KeyOrder::Above => KeyOrder::Above,
            KeyOrder::Same => if self.device < other.device {
                KeyOrder::Below
            } else if self.device == other.device {
                KeyOrder::Same
            } else {
                KeyOrder::Above
            },
        }
    }
}

/// The base keys used with one Kyber prekey and signed prekey, in the
/// order they were used.
pub struct KeyList(pub Vec<Vec<u8>>);

impl View for KeyList {
    type V = Seq<Seq<u8>>;

    open spec fn view(&self) -> Seq<Seq<u8>> {
        Seq::new(self.0@.len(), |i: int| self.0@[i]@)
    }
}

// ---------------------------------------------------------------------------
// The image
// ---------------------------------------------------------------------------

/// A Signal protocol store with its records serialized.
pub struct StoreImage {
    pub key_pair: Vec<u8>,
    pub registration_id: u32,
    pub known: Vec<(Address, Vec<u8>)>,
    pub prekeys: Vec<(u32, Vec<u8>)>,
    pub signed: Vec<(u32, Vec<u8>)>,
    pub kyber: Vec<(u32, Vec<u8>)>,
    pub used: Vec<((u32, u32), KeyList)>,
    pub sessions: Vec<(Address, Vec<u8>)>,
}

pub struct ImageView {
    pub key_pair: Seq<u8>,
    pub registration_id: u32,
    pub known: Seq<(AddressView, Seq<u8>)>,
    pub prekeys: Seq<(u32, Seq<u8>)>,
    pub signed: Seq<(u32, Seq<u8>)>,
    pub kyber: Seq<(u32, Seq<u8>)>,
    pub used: Seq<((u32, u32), Seq<Seq<u8>>)>,
    pub sessions: Seq<(AddressView, Seq<u8>)>,
}

impl View for StoreImage {
    type V = ImageView;

    open spec fn view(&self) -> ImageView {
        ImageView {
            key_pair: self.key_pair@,
            registration_id: self.registration_id,
            known: entries_view(self.known@),
            prekeys: entries_view(self.prekeys@),
            signed: entries_view(self.signed@),
            kyber: entries_view(self.kyber@),
            used: entries_view(self.used@),
            sessions: entries_view(self.sessions@),
        }
    }
}

/// Every map in key order, every used-key list non-empty, every device
/// number at most [`MAX_DEVICE`].
pub open spec fn image_ok(v: ImageView) -> bool {
    &&& sorted_keys::<Address, Seq<u8>>(v.known)
    &&& sorted_keys::<u32, Seq<u8>>(v.prekeys)
    &&& sorted_keys::<u32, Seq<u8>>(v.signed)
    &&& sorted_keys::<u32, Seq<u8>>(v.kyber)
    &&& sorted_keys::<(u32, u32), Seq<Seq<u8>>>(v.used)
    &&& sorted_keys::<Address, Seq<u8>>(v.sessions)
    &&& forall|i: int| 0 <= i < v.used.len() ==> #[trigger] v.used[i].1.len() > 0
    &&& forall|i: int| 0 <= i < v.known.len() ==> #[trigger] v.known[i].0.device <= MAX_DEVICE
    &&& forall|i: int| 0 <= i < v.sessions.len() ==> #[trigger] v.sessions[i].0.device <= MAX_DEVICE
}

/// Records that base key `pk` was used with the prekeys `k`.
pub open spec fn append_used(s: Seq<((u32, u32), Seq<Seq<u8>>)>, k: (u32, u32), pk: Seq<u8>) -> Seq<
    ((u32, u32), Seq<Seq<u8>>),
> {
    let before = match key_value::<(u32, u32), Seq<Seq<u8>>>(s, k) {
        Some(l) => l,
        None => seq![],
    };
    put_spec::<(u32, u32), Seq<Seq<u8>>>(s, k, before.push(pk))
}

// ---------------------------------------------------------------------------
// Stored form
// ---------------------------------------------------------------------------

pub open spec fn addr_row(e: (AddressView, Seq<u8>)) -> ValueSpec {
    ValueSpec::Array(seq![ValueSpec::Text(e.0.name), ValueSpec::Uint(e.0.device as u64), ValueSpec::Bytes(e.1)])
}

pub open spec fn id_row(e: (u32, Seq<u8>)) -> ValueSpec {
    ValueSpec::Array(seq![ValueSpec::Uint(e.0 as u64), ValueSpec::Bytes(e.1)])
}

pub open spec fn used_row(k: (u32, u32), pk: Seq<u8>) -> ValueSpec {
    ValueSpec::Array(seq![ValueSpec::Uint(k.0 as u64), ValueSpec::Uint(k.1 as u64), ValueSpec::Bytes(pk)])
}

pub open spec fn addr_rows(s: Seq<(AddressView, Seq<u8>)>) -> Seq<ValueSpec> {
    Seq::new(s.len(), |i: int| addr_row(s[i]))
}

pub open spec fn id_rows(s: Seq<(u32, Seq<u8>)>) -> Seq<ValueSpec> {
    Seq::new(s.len(), |i: int| id_row(s[i]))
}

pub open spec fn group_rows(k: (u32, u32), l: Seq<Seq<u8>>) -> Seq<ValueSpec> {
    Seq::new(l.len(), |j: int| used_row(k, l[j]))
}

/// One row per used base key: by prekey pair, then in the order used.
pub open spec fn used_rows(s: Seq<((u32, u32), Seq<Seq<u8>>)>) -> Seq<ValueSpec>
    decreases s.len(),
{
    if s.len() == 0 {
        seq![]
    } else {
        used_rows(s.drop_last()) + group_rows(s.last().0, s.last().1)
    }
}

/// The stored map.
pub open spec fn image_entries(v: ImageView) -> Seq<(u64, ValueSpec)> {
    seq![
        (0u64, ValueSpec::Bytes(v.key_pair)),
        (1u64, ValueSpec::Uint(v.registration_id as u64)),
        (2u64, ValueSpec::Array(addr_rows(v.known))),
        (3u64, ValueSpec::Array(id_rows(v.prekeys))),
        (4u64, ValueSpec::Array(id_rows(v.signed))),
        (5u64, ValueSpec::Array(id_rows(v.kyber))),
        (6u64, ValueSpec::Array(used_rows(v.used))),
        (7u64, ValueSpec::Array(addr_rows(v.sessions))),
    ]
}

/// An address row: name, device (at most [`MAX_DEVICE`]) and bytes.
pub open spec fn addr_from(v: ValueSpec) -> Option<(AddressView, Seq<u8>)> {
    match v {
        ValueSpec::Array(r) => if r.len() == 3 {
            match (r[0], r[1], r[2]) {
                (ValueSpec::Text(n), ValueSpec::Uint(d), ValueSpec::Bytes(b)) => if d <= MAX_DEVICE {
                    Some((AddressView { name: n, device: d as u32 }, b))
                } else {
                    None
                },
                _ => None,
            }
        } else {
            None
        },
        _ => None,
    }
}

/// An id row: a number (read as 32 bits) and bytes.
pub open spec fn id_from(v: ValueSpec) -> Option<(u32, Seq<u8>)> {
    match v {
        ValueSpec::Array(r) => if r.len() == 2 {
            match (r[0], r[1]) {
                (ValueSpec::Uint(n), ValueSpec::Bytes(b)) => Some((n as u32, b)),
                _ => None,
            }
        } else {
            None
        },
        _ => None,
    }
}

/// A used-key row: the two prekey numbers (read as 32 bits) and the key.
pub open spec fn used_from_row(v: ValueSpec) -> Option<((u32, u32), Seq<u8>)> {
    match v {
        ValueSpec::Array(r) => if r.len() == 3 {
            match (r[0], r[1], r[2]) {
                (ValueSpec::Uint(k), ValueSpec::Uint(s), ValueSpec::Bytes(b)) => Some(((k as u32, s as u32), b)),
                _ => None,
            }
        } else {
            None
        },
        _ => None,
    }
}

pub open spec fn addrs_from(items: Seq<ValueSpec>) -> Option<Seq<(AddressView, Seq<u8>)>>
    decreases items.len(),
{
    if items.len() == 0 {
        Some(seq![])
    } else {
        match (addrs_from(items.drop_last()), addr_from(items.last())) {
            (Some(s), Some(e)) => Some(put_spec::<Address, Seq<u8>>(s, e.0, e.1)),
            _ => None,
        }
    }
}

pub open spec fn ids_from(items: Seq<ValueSpec>) -> Option<Seq<(u32, Seq<u8>)>>
    decreases items.len(),
{
    if items.len() == 0 {
        Some(seq![])
    } else {
        match (ids_from(items.drop_last()), id_from(items.last())) {
            (Some(s), Some(e)) => Some(put_spec::<u32, Seq<u8>>(s, e.0, e.1)),
            _ => None,
        }
    }
}

pub open spec fn used_from(items: Seq<ValueSpec>) -> Option<Seq<((u32, u32), Seq<Seq<u8>>)>>
    decreases items.len(),
{
    if items.len() == 0 {
        Some(seq![])
    } else {
        match (used_from(items.drop_last()), used_from_row(items.last())) {
            (Some(s), Some(e)) => Some(append_used(s, e.0, e.1)),
            _ => None,
        }
    }
}

/// The image a stored map holds.
pub open spec fn image_from(m: Seq<(u64, ValueSpec)>) -> Option<ImageView> {
    match (lookup(m, 0), lookup(m, 1), lookup(m, 2), lookup(m, 3), lookup(m, 4), lookup(m, 5), lookup(m, 6), lookup(m, 7)) {
        (
            Some(ValueSpec::Bytes(kp)),
            Some(ValueSpec::Uint(reg)),
            Some(ValueSpec::Array(kn)),
            Some(ValueSpec::Array(pk)),
            Some(ValueSpec::Array(sg)),
            Some(ValueSpec::Array(ky)),
            Some(ValueSpec::Array(us)),
            Some(ValueSpec::Array(ss)),
        ) => match (addrs_from(kn), ids_from(pk), ids_from(sg), ids_from(ky), used_from(us), addrs_from(ss)) {
            (Some(kn), Some(pk), Some(sg), Some(ky), Some(us), Some(ss)) => Some(
                ImageView {
                    key_pair: kp,
                    registration_id: reg as u32,
                    known: kn,
                    prekeys: pk,
                    signed: sg,
                    kyber: ky,
                    used: us,
                    sessions: ss,
                },
            ),
            _ => None,
        },
        _ => None,
    }
}

/// The image stored bytes hold: one map filling them exactly.
pub open spec fn image_decoded(b: Seq<u8>) -> Option<ImageView> {
    match parse(b, 0) {
        Some((ValueSpec::Dict(m), n)) => if n == b.len() {
            image_from(m)
        } else {
            None
        },
        _ => None,
    }
}

// ---------------------------------------------------------------------------
// Building an image
// ---------------------------------------------------------------------------

fn copy_list(l: &Vec<Vec<u8>>) -> (r: Vec<Vec<u8>>)
    ensures
        KeyList(r)@ == KeyList(*l)@,
{
    let mut out: Vec<Vec<u8>> = Vec::new();
    let mut i: usize = 0;
    while i < l.len()
        invariant
            i <= l@.len(),
            out@.len() == i,
            forall|j: int| 0 <= j < i ==> #[trigger] out@[j]@ == l@[j]@,
        decreases l@.len() - i,
    {
        out.push(array_to_vec(l[i].as_slice()));
        i = i + 1;
    }
    assert(KeyList(out)@ =~= KeyList(*l)@);
    out
}

/// Appends `pk` to the base keys used with `k`.
fn record_used(used: &mut Vec<((u32, u32), KeyList)>, k: (u32, u32), pk: Vec<u8>)
    ensures
        entries_view(final(used)@) == append_used(entries_view(old(used)@), k, pk@),
{
    let ghost prior = match key_value::<(u32, u32), Seq<Seq<u8>>>(entries_view(used@), k) {
        Some(l) => l,
        None => seq![],
    };
    assert(k@ == k);
    let mut list = match find_key(used, &k) {
        Some(i) => {
            assert(entries_view(used@)[i as int] == (used@[i as int].0@, used@[i as int].1@));
            copy_list(&used[i].1.0)
        },
        None => Vec::new(),
    };
    assert(KeyList(list)@ =~= prior);
    list.push(pk);
    assert(KeyList(list)@ =~= prior.push(pk@));
    put(used, k, KeyList(list));
}

/// Whether `l` holds `pk`.
fn holds(l: &Vec<Vec<u8>>, pk: &[u8]) -> (r: bool)
    ensures
        r == KeyList(*l)@.contains(pk@),
{
    let mut i: usize = 0;
    while i < l.len()
        invariant
            i <= l@.len(),
            forall|j: int| 0 <= j < i ==> l@[j]@ != pk@,
        decreases l@.len() - i,
    {
        if order_bytes(l[i].as_slice(), pk) == KeyOrder::Same {
            assert(KeyList(*l)@[i as int] == pk@);
            return true;
        }
        i = i + 1;
    }
    proof {
        if KeyList(*l)@.contains(pk@) {
            let j = choose|j: int| 0 <= j < KeyList(*l)@.len() && KeyList(*l)@[j] == pk@;
            assert(l@[j]@ == pk@);
        }
    }
    false
}

impl StoreImage {
    /// An image with a key pair and registration id and nothing else.
    pub fn new(key_pair: Vec<u8>, registration_id: u32) -> (r: StoreImage)
        ensures
            r@.key_pair == key_pair@,
            r@.registration_id == registration_id,
            r@.known.len() == 0,
            r@.prekeys.len() == 0,
            r@.signed.len() == 0,
            r@.kyber.len() == 0,
            r@.used.len() == 0,
            r@.sessions.len() == 0,
            image_ok(r@),
    {
        StoreImage {
            key_pair,
            registration_id,
            known: Vec::new(),
            prekeys: Vec::new(),
            signed: Vec::new(),
            kyber: Vec::new(),
            used: Vec::new(),
            sessions: Vec::new(),
        }
    }

    /// Remembers the identity key seen at an address (replacing one it
    /// had).
    pub fn put_known(&mut self, address: Address, identity: Vec<u8>)
        requires
            address.device <= MAX_DEVICE,
        ensures
            final(self)@ == (ImageView {
                known: put_spec::<Address, Seq<u8>>(old(self)@.known, address@, identity@),
                ..old(self)@
            }),
            image_ok(old(self)@) ==> image_ok(final(self)@),
    {
        proof {
            if image_ok(old(self)@) {
                lemma_put_sorted::<Address, Seq<u8>>(old(self)@.known, address@, identity@);
            }
            lemma_put_keeps::<Address, Seq<u8>>(old(self)@.known, address@, identity@);
        }
        put(&mut self.known, address, identity);
    }

    /// Stores a one-time prekey record.
    pub fn put_prekey(&mut self, id: u32, record: Vec<u8>)
        ensures
            final(self)@ == (ImageView {
                prekeys: put_spec::<u32, Seq<u8>>(old(self)@.prekeys, id, record@),
                ..old(self)@
            }),
            image_ok(old(self)@) ==> image_ok(final(self)@),
    {
        proof {
            if image_ok(old(self)@) {
                lemma_put_sorted::<u32, Seq<u8>>(old(self)@.prekeys, id, record@);
            }
        }
        put(&mut self.prekeys, id, record);
    }

    /// Stores a signed prekey record.
    pub fn put_signed(&mut self, id: u32, record: Vec<u8>)
        ensures
            final(self)@ == (ImageView {
                signed: put_spec::<u32, Seq<u8>>(old(self)@.signed, id, record@),
                ..old(self)@
            }),
            image_ok(old(self)@) ==> image_ok(final(self)@),
    {
        proof {
            if image_ok(old(self)@) {
                lemma_put_sorted::<u32, Seq<u8>>(old(self)@.signed, id, record@);
            }
        }
        put(&mut self.signed, id, record);
    }

    /// Stores a Kyber prekey record.
    pub fn put_kyber(&mut self, id: u32, record: Vec<u8>)
        ensures
            final(self)@ == (ImageView {
                kyber: put_spec::<u32, Seq<u8>>(old(self)@.kyber, id, record@),
                ..old(self)@
            }),
            image_ok(old(self)@) ==> image_ok(final(self)@),
    {
        proof {
            if image_ok(old(self)@) {
                lemma_put_sorted::<u32, Seq<u8>>(old(self)@.kyber, id, record@);
            }
        }
        put(&mut self.kyber, id, record);
    }

    /// Stores the session with an address.
    pub fn put_session(&mut self, address: Address, record: Vec<u8>)
        requires
            address.device <= MAX_DEVICE,
        ensures
            final(self)@ == (ImageView {
                sessions: put_spec::<Address, Seq<u8>>(old(self)@.sessions, address@, record@),
                ..old(self)@
            }),
            image_ok(old(self)@) ==> image_ok(final(self)@),
    {
        proof {
            if image_ok(old(self)@) {
                lemma_put_sorted::<Address, Seq<u8>>(old(self)@.sessions, address@, record@);
            }
            lemma_put_keeps::<Address, Seq<u8>>(old(self)@.sessions, address@, record@);
        }
        put(&mut self.sessions, address, record);
    }

    /// Marks base key `pk` used with Kyber prekey `kid` and signed prekey
    /// `sid`. A base key already used with that pair is refused (false) and
    /// nothing changes.
    pub fn mark_used(&mut self, kid: u32, sid: u32, pk: Vec<u8>) -> (fresh: bool)
        ensures
            ({
                let seen = key_value::<(u32, u32), Seq<Seq<u8>>>(old(self)@.used, (kid, sid));
                &&& (seen matches Some(l) && l.contains(pk@)) ==> !fresh && final(self)@ == old(self)@
                &&& !(seen matches Some(l) && l.contains(pk@)) ==> fresh && final(self)@ == (ImageView {
                    used: append_used(old(self)@.used, (kid, sid), pk@),
                    ..old(self)@
                })
            }),
            image_ok(old(self)@) ==> image_ok(final(self)@),
    {
        let k = (kid, sid);
        assert(k@ == k);
        if let Some(i) = find_key(&self.used, &k) {
            if holds(&self.used[i].1.0, pk.as_slice()) {
                return false;
            }
        }
        proof {
            lemma_append_used_ok(old(self)@.used, k, pk@);
        }
        record_used(&mut self.used, k, pk);
        true
    }
}

/// Putting an entry keeps every entry's key one of the old keys or the new
/// one, and every value one of the old values or the new one.
proof fn lemma_put_keeps<K: OrderedKey, W>(s: Seq<(K::V, W)>, k: K::V, w: W)
    ensures
        forall|i: int| 0 <= i < put_spec::<K, W>(s, k, w).len() ==> #[trigger] put_spec::<K, W>(s, k, w)[i] == (k, w)
            || s.contains(put_spec::<K, W>(s, k, w)[i]),
    decreases s.len(),
{
    let r = put_spec::<K, W>(s, k, w);
    if s.len() == 0 {
    } else if K::below(s.last().0, k) {
        assert forall|i: int| 0 <= i < r.len() implies #[trigger] r[i] == (k, w) || s.contains(r[i]) by {
            if i < s.len() {
                assert(r[i] == s[i]);
            }
        }
    } else if s.last().0 == k {
        assert forall|i: int| 0 <= i < r.len() implies #[trigger] r[i] == (k, w) || s.contains(r[i]) by {
            if i < s.len() - 1 {
                assert(r[i] == s[i]);
            }
        }
    } else {
        lemma_put_keeps::<K, W>(s.drop_last(), k, w);
        let r0 = put_spec::<K, W>(s.drop_last(), k, w);
        assert forall|i: int| 0 <= i < r.len() implies #[trigger] r[i] == (k, w) || s.contains(r[i]) by {
            if i < r0.len() {
                assert(r[i] == r0[i]);
                if r0[i] != (k, w) {
                    let j = choose|j: int| 0 <= j < s.drop_last().len() && s.drop_last()[j] == r0[i];
                    assert(s[j] == r0[i]);
                }
            } else {
                assert(r[i] == s[s.len() - 1]);
            }
        }
    }
}

proof fn lemma_append_used_ok(s: Seq<((u32, u32), Seq<Seq<u8>>)>, k: (u32, u32), pk: Seq<u8>)
    ensures
        sorted_keys::<(u32, u32), Seq<Seq<u8>>>(s) ==> sorted_keys::<(u32, u32), Seq<Seq<u8>>>(append_used(s, k, pk)),
        (forall|i: int| 0 <= i < s.len() ==> #[trigger] s[i].1.len() > 0) ==> forall|i: int|
            0 <= i < append_used(s, k, pk).len() ==> #[trigger] append_used(s, k, pk)[i].1.len() > 0,
{
    let before = match key_value::<(u32, u32), Seq<Seq<u8>>>(s, k) {
        Some(l) => l,
        None => seq![],
    };
    if sorted_keys::<(u32, u32), Seq<Seq<u8>>>(s) {
        lemma_put_sorted::<(u32, u32), Seq<Seq<u8>>>(s, k, before.push(pk));
    }
    lemma_put_keeps::<(u32, u32), Seq<Seq<u8>>>(s, k, before.push(pk));
    let r = append_used(s, k, pk);
    if forall|i: int| 0 <= i < s.len() ==> #[trigger] s[i].1.len() > 0 {
        assert forall|i: int| 0 <= i < r.len() implies #[trigger] r[i].1.len() > 0 by {
            if r[i] != (k, before.push(pk)) {
                let j = choose|j: int| 0 <= j < s.len() && s[j] == r[i];
                assert(s[j].1.len() > 0);
            }
        }
    }
}

// ---------------------------------------------------------------------------
// Writing and reading the stored form
// ---------------------------------------------------------------------------

fn push_item(items: &mut Vec<Value>, v: Value)
    ensures
        view_items(final(items)@) == view_items(old(items)@).push(v@),
{
    proof {
        lemma_view_items_push(items@, v);
    }
    items.push(v);
}

fn push_entry(pairs: &mut Vec<(u64, Value)>, k: u64, v: Value)
    ensures
        view_entries(final(pairs)@) == view_entries(old(pairs)@).push((k, v@)),
{
    proof {
        lemma_view_entries_push(pairs@, (k, v));
    }
    pairs.push((k, v));
}

fn row_value(a: Value, b: Value) -> (v: Value)
    ensures
        v@ == ValueSpec::Array(seq![a@, b@]),
{
    let mut row: Vec<Value> = Vec::new();
    let ghost (av, bv) = (a@, b@);
    assert(view_items(row@) =~= Seq::<ValueSpec>::empty());
    push_item(&mut row, a);
    push_item(&mut row, b);
    assert(view_items(row@) =~= seq![av, bv]);
    Value::Array(row)
}

fn row3_value(a: Value, b: Value, c: Value) -> (v: Value)
    ensures
        v@ == ValueSpec::Array(seq![a@, b@, c@]),
{
    let mut row: Vec<Value> = Vec::new();
    let ghost (av, bv, cv) = (a@, b@, c@);
    assert(view_items(row@) =~= Seq::<ValueSpec>::empty());
    push_item(&mut row, a);
    push_item(&mut row, b);
    push_item(&mut row, c);
    assert(view_items(row@) =~= seq![av, bv, cv]);
    Value::Array(row)
}

fn addr_values(s: &Vec<(Address, Vec<u8>)>) -> (r: Vec<Value>)
    ensures
        view_items(r@) == addr_rows(entries_view(s@)),
{
    let ghost e = entries_view(s@);
    let mut out: Vec<Value> = Vec::new();
    let mut i: usize = 0;
    assert(view_items(out@) =~= addr_rows(e.take(0)));
    while i < s.len()
        invariant
            e == entries_view(s@),
            i <= s@.len(),
            view_items(out@) == addr_rows(e.take(i as int)),
        decreases s@.len() - i,
    {
        let row = row3_value(
            Value::Text(s[i].0.name.clone()),
            Value::Uint(s[i].0.device as u64),
            Value::Bytes(array_to_vec(s[i].1.as_slice())),
        );
        push_item(&mut out, row);
        i = i + 1;
        assert(addr_rows(e.take(i as int)) =~= addr_rows(e.take(i - 1)).push(addr_row(e[i - 1])));
    }
    assert(e.take(i as int) =~= e);
    out
}

fn id_values(s: &Vec<(u32, Vec<u8>)>) -> (r: Vec<Value>)
    ensures
        view_items(r@) == id_rows(entries_view(s@)),
{
    let ghost e = entries_view(s@);
    let mut out: Vec<Value> = Vec::new();
    let mut i: usize = 0;
    assert(view_items(out@) =~= id_rows(e.take(0)));
    while i < s.len()
        invariant
            e == entries_view(s@),
            i <= s@.len(),
            view_items(out@) == id_rows(e.take(i as int)),
        decreases s@.len() - i,
    {
        let row = row_value(Value::Uint(s[i].0 as u64), Value::Bytes(array_to_vec(s[i].1.as_slice())));
        push_item(&mut out, row);
        i = i + 1;
        assert(id_rows(e.take(i as int)) =~= id_rows(e.take(i - 1)).push(id_row(e[i - 1])));
    }
    assert(e.take(i as int) =~= e);
    out
}

fn used_values(s: &Vec<((u32, u32), KeyList)>) -> (r: Vec<Value>)
    ensures
        view_items(r@) == used_rows(entries_view(s@)),
{
    let ghost e = entries_view(s@);
    let mut out: Vec<Value> = Vec::new();
    let mut i: usize = 0;
    assert(view_items(out@) =~= used_rows(e.take(0)));
    while i < s.len()
        invariant
            e == entries_view(s@),
            i <= s@.len(),
            view_items(out@) == used_rows(e.take(i as int)),
        decreases s@.len() - i,
    {
        let k = s[i].0;
        let l = &s[i].1.0;
        let ghost base = view_items(out@);
        let ghost lv = e[i as int].1;
        assert(lv == KeyList(*l)@);
        let mut j: usize = 0;
        assert(base + group_rows(k, lv.take(0)) =~= base);
        while j < l.len()
            invariant
                lv == KeyList(*l)@,
                j <= l@.len(),
                view_items(out@) == base + group_rows(k, lv.take(j as int)),
            decreases l@.len() - j,
        {
            let row = row3_value(Value::Uint(k.0 as u64), Value::Uint(k.1 as u64), Value::Bytes(array_to_vec(l[j].as_slice())));
            push_item(&mut out, row);
            j = j + 1;
            assert(group_rows(k, lv.take(j as int)) =~= group_rows(k, lv.take(j - 1)).push(used_row(k, lv[j - 1])));
            assert(base + group_rows(k, lv.take(j as int)) =~= (base + group_rows(k, lv.take(j - 1))).push(
                used_row(k, lv[j - 1]),
            ));
        }
        assert(lv.take(j as int) =~= lv);
        i = i + 1;
        assert(e.take(i as int).drop_last() =~= e.take(i - 1));
        assert(e.take(i as int).last() == e[i - 1]);
        assert(e[i - 1].0 == k);
    }
    assert(e.take(i as int) =~= e);
    out
}

impl StoreImage {
    /// The stored form: a map from 0 to 7 of the key pair, the
    /// registration id, the known identities, the three prekey kinds, the
    /// used base keys and the sessions, every list in key order.
    pub fn encode(&self) -> (r: Vec<u8>)
        ensures
            r@ == enc(ValueSpec::Dict(image_entries(self@))),
            well_formed(ValueSpec::Dict(image_entries(self@))),
    {
        let mut pairs: Vec<(u64, Value)> = Vec::new();
        assert(view_entries(pairs@) =~= Seq::<(u64, ValueSpec)>::empty());
        push_entry(&mut pairs, 0, Value::Bytes(array_to_vec(self.key_pair.as_slice())));
        push_entry(&mut pairs, 1, Value::Uint(self.registration_id as u64));
        push_entry(&mut pairs, 2, Value::Array(addr_values(&self.known)));
        push_entry(&mut pairs, 3, Value::Array(id_values(&self.prekeys)));
        push_entry(&mut pairs, 4, Value::Array(id_values(&self.signed)));
        push_entry(&mut pairs, 5, Value::Array(id_values(&self.kyber)));
        push_entry(&mut pairs, 6, Value::Array(used_values(&self.used)));
        push_entry(&mut pairs, 7, Value::Array(addr_values(&self.sessions)));
        assert(view_entries(pairs@) =~= image_entries(self@));
        crate::cbor::encode(&Value::Dict(pairs))
    }
}

proof fn lemma_prefix_fails_addrs(items: Seq<ValueSpec>, i: int)
    requires
        0 <= i < items.len(),
        addr_from(items[i]) is None,
    ensures
        addrs_from(items) is None,
    decreases items.len(),
{
    if i < items.len() - 1 {
        assert(items.drop_last()[i] == items[i]);
        lemma_prefix_fails_addrs(items.drop_last(), i);
    }
}

proof fn lemma_prefix_fails_ids(items: Seq<ValueSpec>, i: int)
    requires
        0 <= i < items.len(),
        id_from(items[i]) is None,
    ensures
        ids_from(items) is None,
    decreases items.len(),
{
    if i < items.len() - 1 {
        assert(items.drop_last()[i] == items[i]);
        lemma_prefix_fails_ids(items.drop_last(), i);
    }
}

proof fn lemma_prefix_fails_used(items: Seq<ValueSpec>, i: int)
    requires
        0 <= i < items.len(),
        used_from_row(items[i]) is None,
    ensures
        used_from(items) is None,
    decreases items.len(),
{
    if i < items.len() - 1 {
        assert(items.drop_last()[i] == items[i]);
        lemma_prefix_fails_used(items.drop_last(), i);
    }
}

fn read_addrs(items: &Vec<Value>) -> (r: Option<Vec<(Address, Vec<u8>)>>)
    ensures
        match addrs_from(view_items(items@)) {
            Some(s) => r matches Some(v) && entries_view(v@) == s,
            None => r is None,
        },
{
    let mut out: Vec<(Address, Vec<u8>)> = Vec::new();
    let mut i: usize = 0;
    proof {
        lemma_view_items_len(items@);
        assert(view_items(items@).take(0) =~= Seq::<ValueSpec>::empty());
        assert(entries_view(out@) =~= Seq::<(AddressView, Seq<u8>)>::empty());
    }
    while i < items.len()
        invariant
            i <= items@.len(),
            view_items(items@).len() == items@.len(),
            forall|j: int| 0 <= j < items@.len() ==> #[trigger] view_items(items@)[j] == items@[j]@,
            addrs_from(view_items(items@).take(i as int)) == Some(entries_view(out@)),
        decreases items@.len() - i,
    {
        proof {
            assert(view_items(items@).take(i + 1).drop_last() =~= view_items(items@).take(i as int));
            assert(view_items(items@).take(i + 1).last() == items@[i as int]@);
        }
        let (a, b) = match &items[i] {
            Value::Array(row) => {
                proof {
                    lemma_view_items_len(row@);
                }
                if row.len() != 3 {
                    proof {
                        lemma_prefix_fails_addrs(view_items(items@), i as int);
                    }
                    return None;
                }
                match (&row[0], &row[1], &row[2]) {
                    (Value::Text(n), Value::Uint(d), Value::Bytes(b)) if *d <= MAX_DEVICE => (
                        Address { name: n.clone(), device: *d as u32 },
                        array_to_vec(b.as_slice()),
                    ),
                    _ => {
                        proof {
                            lemma_prefix_fails_addrs(view_items(items@), i as int);
                        }
                        return None;
                    },
                }
            },
            _ => {
                proof {
                    lemma_prefix_fails_addrs(view_items(items@), i as int);
                }
                return None;
            },
        };
        put(&mut out, a, b);
        i = i + 1;
    }
    assert(view_items(items@).take(i as int) =~= view_items(items@));
    Some(out)
}

fn read_ids(items: &Vec<Value>) -> (r: Option<Vec<(u32, Vec<u8>)>>)
    ensures
        match ids_from(view_items(items@)) {
            Some(s) => r matches Some(v) && entries_view(v@) == s,
            None => r is None,
        },
{
    let mut out: Vec<(u32, Vec<u8>)> = Vec::new();
    let mut i: usize = 0;
    proof {
        lemma_view_items_len(items@);
        assert(view_items(items@).take(0) =~= Seq::<ValueSpec>::empty());
        assert(entries_view(out@) =~= Seq::<(u32, Seq<u8>)>::empty());
    }
    while i < items.len()
        invariant
            i <= items@.len(),
            view_items(items@).len() == items@.len(),
            forall|j: int| 0 <= j < items@.len() ==> #[trigger] view_items(items@)[j] == items@[j]@,
            ids_from(view_items(items@).take(i as int)) == Some(entries_view(out@)),
        decreases items@.len() - i,
    {
        proof {
            assert(view_items(items@).take(i + 1).drop_last() =~= view_items(items@).take(i as int));
            assert(view_items(items@).take(i + 1).last() == items@[i as int]@);
        }
        let (a, b) = match &items[i] {
            Value::Array(row) => {
                proof {
                    lemma_view_items_len(row@);
                }
                if row.len() != 2 {
                    proof {
                        lemma_prefix_fails_ids(view_items(items@), i as int);
                    }
                    return None;
                }
                match (&row[0], &row[1]) {
                    (Value::Uint(n), Value::Bytes(b)) => (*n as u32, array_to_vec(b.as_slice())),
                    _ => {
                        proof {
                            lemma_prefix_fails_ids(view_items(items@), i as int);
                        }
                        return None;
                    },
                }
            },
            _ => {
                proof {
                    lemma_prefix_fails_ids(view_items(items@), i as int);
                }
                return None;
            },
        };
        put(&mut out, a, b);
        i = i + 1;
    }
    assert(view_items(items@).take(i as int) =~= view_items(items@));
    Some(out)
}

fn read_used(items: &Vec<Value>) -> (r: Option<Vec<((u32, u32), KeyList)>>)
    ensures
        match used_from(view_items(items@)) {
            Some(s) => r matches Some(v) && entries_view(v@) == s,
            None => r is None,
        },
{
    let mut out: Vec<((u32, u32), KeyList)> = Vec::new();
    let mut i: usize = 0;
    proof {
        lemma_view_items_len(items@);
        assert(view_items(items@).take(0) =~= Seq::<ValueSpec>::empty());
        assert(entries_view(out@) =~= Seq::<((u32, u32), Seq<Seq<u8>>)>::empty());
    }
    while i < items.len()
        invariant
            i <= items@.len(),
            view_items(items@).len() == items@.len(),
            forall|j: int| 0 <= j < items@.len() ==> #[trigger] view_items(items@)[j] == items@[j]@,
            used_from(view_items(items@).take(i as int)) == Some(entries_view(out@)),
        decreases items@.len() - i,
    {
        proof {
            assert(view_items(items@).take(i + 1).drop_last() =~= view_items(items@).take(i as int));
            assert(view_items(items@).take(i + 1).last() == items@[i as int]@);
        }
        let (k, b) = match &items[i] {
            Value::Array(row) => {
                proof {
                    lemma_view_items_len(row@);
                }
                if row.len() != 3 {
                    proof {
                        lemma_prefix_fails_used(view_items(items@), i as int);
                    }
                    return None;
                }
                match (&row[0], &row[1], &row[2]) {
                    (Value::Uint(a), Value::Uint(c), Value::Bytes(b)) => ((*a as u32, *c as u32), array_to_vec(b.as_slice())),
                    _ => {
                        proof {
                            lemma_prefix_fails_used(view_items(items@), i as int);
                        }
                        return None;
                    },
                }
            },
            _ => {
                proof {
                    lemma_prefix_fails_used(view_items(items@), i as int);
                }
                return None;
            },
        };
        record_used(&mut out, k, b);
        i = i + 1;
    }
    assert(view_items(items@).take(i as int) =~= view_items(items@));
    Some(out)
}

proof fn lemma_addrs_ok(items: Seq<ValueSpec>)
    ensures
        addrs_from(items) matches Some(s) ==> sorted_keys::<Address, Seq<u8>>(s) && forall|i: int|
            0 <= i < s.len() ==> #[trigger] s[i].0.device <= MAX_DEVICE,
    decreases items.len(),
{
    if items.len() > 0 {
        lemma_addrs_ok(items.drop_last());
        if let Some(s) = addrs_from(items.drop_last()) {
            if let Some(e) = addr_from(items.last()) {
                lemma_put_sorted::<Address, Seq<u8>>(s, e.0, e.1);
                lemma_put_keeps::<Address, Seq<u8>>(s, e.0, e.1);
                let r = put_spec::<Address, Seq<u8>>(s, e.0, e.1);
                assert forall|i: int| 0 <= i < r.len() implies #[trigger] r[i].0.device <= MAX_DEVICE by {
                    if r[i] != (e.0, e.1) {
                        let j = choose|j: int| 0 <= j < s.len() && s[j] == r[i];
                        assert(s[j].0.device <= MAX_DEVICE);
                    }
                }
            }
        }
    }
}

proof fn lemma_ids_ok(items: Seq<ValueSpec>)
    ensures
        ids_from(items) matches Some(s) ==> sorted_keys::<u32, Seq<u8>>(s),
    decreases items.len(),
{
    if items.len() > 0 {
        lemma_ids_ok(items.drop_last());
        if let Some(s) = ids_from(items.drop_last()) {
            if let Some(e) = id_from(items.last()) {
                lemma_put_sorted::<u32, Seq<u8>>(s, e.0, e.1);
            }
        }
    }
}

proof fn lemma_used_ok(items: Seq<ValueSpec>)
    ensures
        used_from(items) matches Some(s) ==> sorted_keys::<(u32, u32), Seq<Seq<u8>>>(s) && forall|i: int|
            0 <= i < s.len() ==> #[trigger] s[i].1.len() > 0,
    decreases items.len(),
{
    if items.len() > 0 {
        lemma_used_ok(items.drop_last());
        if let Some(s) = used_from(items.drop_last()) {
            if let Some(e) = used_from_row(items.last()) {
                lemma_append_used_ok(s, e.0, e.1);
            }
        }
    }
}

impl StoreImage {
    /// Reads a stored image. Bytes that are not one map holding all eight
    /// entries in their shapes are corrupt, as is an address whose device
    /// number is above [`MAX_DEVICE`]. Numbers are read as 32 bits, a later
    /// row for a key replaces an earlier one, and used base keys are
    /// gathered under their prekey pair in the order read.
    pub fn decode(bytes: &[u8]) -> (r: Result<StoreImage, CoreError>)
        ensures
            match image_decoded(bytes@) {
                Some(v) => r matches Ok(x) && x@ == v,
                None => r == Err::<StoreImage, CoreError>(CoreError::VaultCorrupt),
            },
            r matches Ok(x) ==> image_ok(x@),
    {
        proof {
            if let Some((ValueSpec::Dict(m), n)) = parse(bytes@, 0) {
                if let (Some(ValueSpec::Array(kn)), Some(ValueSpec::Array(pk)), Some(ValueSpec::Array(sg)), Some(
                    ValueSpec::Array(ky),
                ), Some(ValueSpec::Array(us)), Some(ValueSpec::Array(ss))) = (
                    lookup(m, 2),
                    lookup(m, 3),
                    lookup(m, 4),
                    lookup(m, 5),
                    lookup(m, 6),
                    lookup(m, 7),
                ) {
                    lemma_addrs_ok(kn);
                    lemma_ids_ok(pk);
                    lemma_ids_ok(sg);
                    lemma_ids_ok(ky);
                    lemma_used_ok(us);
                    lemma_addrs_ok(ss);
                }
            }
        }
        let m = match crate::cbor::decode(bytes) {
            Some(Value::Dict(m)) => m,
            _ => {
                return Err(CoreError::VaultCorrupt);
            },
        };
        let m = m.as_slice();
        let key_pair = match map_get(m, 0) {
            Some(Value::Bytes(b)) => array_to_vec(b.as_slice()),
            _ => {
                return Err(CoreError::VaultCorrupt);
            },
        };
        let registration_id = match map_get(m, 1) {
            Some(Value::Uint(n)) => *n as u32,
            _ => {
                return Err(CoreError::VaultCorrupt);
            },
        };
        let known = match map_get(m, 2) {
            Some(Value::Array(items)) => read_addrs(items),
            _ => {
                return Err(CoreError::VaultCorrupt);
            },
        };
        let prekeys = match map_get(m, 3) {
            Some(Value::Array(items)) => read_ids(items),
            _ => {
                return Err(CoreError::VaultCorrupt);
            },
        };
        let signed = match map_get(m, 4) {
            Some(Value::Array(items)) => read_ids(items),
            _ => {
                return Err(CoreError::VaultCorrupt);
            },
        };
        let kyber = match map_get(m, 5) {
            Some(Value::Array(items)) => read_ids(items),
            _ => {
                return Err(CoreError::VaultCorrupt);
            },
        };
        let used = match map_get(m, 6) {
            Some(Value::Array(items)) => read_used(items),
            _ => {
                return Err(CoreError::VaultCorrupt);
            },
        };
        let sessions = match map_get(m, 7) {
            Some(Value::Array(items)) => read_addrs(items),
            _ => {
                return Err(CoreError::VaultCorrupt);
            },
        };
        match (known, prekeys, signed, kyber, used, sessions) {
            (Some(known), Some(prekeys), Some(signed), Some(kyber), Some(used), Some(sessions)) => Ok(
                StoreImage { key_pair, registration_id, known, prekeys, signed, kyber, used, sessions },
            ),
            _ => Err(CoreError::VaultCorrupt),
        }
    }
}

// ---------------------------------------------------------------------------
// Reading back what was written
// ---------------------------------------------------------------------------

proof fn lemma_addrs_roundtrip(s: Seq<(AddressView, Seq<u8>)>)
    requires
        forall|i: int| 0 <= i < s.len() ==> #[trigger] s[i].0.device <= MAX_DEVICE,
    ensures
        addrs_from(addr_rows(s)) == Some(put_all::<Address, Seq<u8>>(s)),
    decreases s.len(),
{
    if s.len() > 0 {
        let d = s.drop_last();
        assert(addr_rows(s).drop_last() =~= addr_rows(d));
        assert forall|i: int| 0 <= i < d.len() implies #[trigger] d[i].0.device <= MAX_DEVICE by {
            assert(d[i] == s[i]);
        }
        lemma_addrs_roundtrip(d);
        assert(s.last().0.device <= MAX_DEVICE) by {
            assert(s[s.len() - 1] == s.last());
        }
        let e = s.last();
        assert(addr_rows(s).last() == addr_row(e));
        assert(((e.0.device as u64) as u32) == e.0.device);
        assert(addr_from(addr_row(e)) == Some((AddressView { name: e.0.name, device: e.0.device }, e.1)));
        assert(AddressView { name: e.0.name, device: e.0.device } == e.0);
    } else {
        assert(addr_rows(s) =~= Seq::<ValueSpec>::empty());
    }
}

proof fn lemma_ids_roundtrip(s: Seq<(u32, Seq<u8>)>)
    ensures
        ids_from(id_rows(s)) == Some(put_all::<u32, Seq<u8>>(s)),
    decreases s.len(),
{
    if s.len() > 0 {
        let d = s.drop_last();
        assert(id_rows(s).drop_last() =~= id_rows(d));
        lemma_ids_roundtrip(d);
        let e = s.last();
        assert(id_rows(s).last() == id_row(e));
        assert(((e.0 as u64) as u32) == e.0);
        assert(id_from(id_row(e)) == Some(e));
    } else {
        assert(id_rows(s) =~= Seq::<ValueSpec>::empty());
    }
}

proof fn lemma_key_value_absent(s: Seq<((u32, u32), Seq<Seq<u8>>)>, k: (u32, u32))
    requires
        forall|i: int| 0 <= i < s.len() ==> <(u32, u32) as OrderedKey>::below(#[trigger] s[i].0, k),
    ensures
        key_value::<(u32, u32), Seq<Seq<u8>>>(s, k) is None,
    decreases s.len(),
{
    if s.len() > 0 {
        assert(<(u32, u32) as OrderedKey>::below(s[s.len() - 1].0, k));
        assert(s.drop_last().len() < s.len());
        assert forall|i: int| 0 <= i < s.drop_last().len() implies <(u32, u32) as OrderedKey>::below(
            #[trigger] s.drop_last()[i].0,
            k,
        ) by {
            assert(s.drop_last()[i] == s[i]);
        }
        lemma_key_value_absent(s.drop_last(), k);
    }
}

/// Reading the rows of one more prekey pair after those of `base` adds
/// that pair with the keys read so far.
proof fn lemma_used_extend(
    a: Seq<ValueSpec>,
    base: Seq<((u32, u32), Seq<Seq<u8>>)>,
    k: (u32, u32),
    l: Seq<Seq<u8>>,
    j: int,
)
    requires
        used_from(a) == Some(base),
        forall|i: int| 0 <= i < base.len() ==> <(u32, u32) as OrderedKey>::below(#[trigger] base[i].0, k),
        1 <= j <= l.len(),
    ensures
        used_from(a + group_rows(k, l).take(j)) == Some(base.push((k, l.take(j)))),
    decreases j,
{
    let g = group_rows(k, l);
    let items = a + g.take(j);
    assert(items.last() == used_row(k, l[j - 1]));
    assert(((k.0 as u64) as u32) == k.0 && ((k.1 as u64) as u32) == k.1);
    assert(used_from_row(used_row(k, l[j - 1])) == Some((k, l[j - 1])));
    if j == 1 {
        assert(items.drop_last() =~= a);
        lemma_key_value_absent(base, k);
        assert(seq![l[0]] =~= l.take(1));
        assert(Seq::<Seq<u8>>::empty().push(l[0]) =~= l.take(1));
        if base.len() > 0 {
            assert(<(u32, u32) as OrderedKey>::below(base.last().0, k)) by {
                assert(base[base.len() - 1] == base.last());
            }
        } else {
            assert(seq![(k, l.take(1))] =~= base.push((k, l.take(1))));
        }
    } else {
        assert(items.drop_last() =~= a + g.take(j - 1));
        lemma_used_extend(a, base, k, l, j - 1);
        let b1 = base.push((k, l.take(j - 1)));
        assert(key_value::<(u32, u32), Seq<Seq<u8>>>(b1, k) == Some(l.take(j - 1)));
        assert(l.take(j - 1).push(l[j - 1]) =~= l.take(j));
        assert(b1.drop_last().push((k, l.take(j))) =~= base.push((k, l.take(j))));
    }
}

proof fn lemma_used_roundtrip(s: Seq<((u32, u32), Seq<Seq<u8>>)>)
    requires
        sorted_keys::<(u32, u32), Seq<Seq<u8>>>(s),
        forall|i: int| 0 <= i < s.len() ==> #[trigger] s[i].1.len() > 0,
    ensures
        used_from(used_rows(s)) == Some(s),
    decreases s.len(),
{
    if s.len() > 0 {
        let d = s.drop_last();
        let e = s.last();
        assert(sorted_keys::<(u32, u32), Seq<Seq<u8>>>(d)) by {
            assert forall|i: int, j: int| 0 <= i < j < d.len() implies #[trigger] <(u32, u32) as OrderedKey>::below(
                d[i].0,
                d[j].0,
            ) by {
                assert(<(u32, u32) as OrderedKey>::below(s[i].0, s[j].0));
            }
        }
        assert forall|i: int| 0 <= i < d.len() implies #[trigger] d[i].1.len() > 0 by {
            assert(d[i] == s[i]);
        }
        lemma_used_roundtrip(d);
        assert forall|i: int| 0 <= i < d.len() implies <(u32, u32) as OrderedKey>::below(#[trigger] d[i].0, e.0) by {
            assert(<(u32, u32) as OrderedKey>::below(s[i].0, s[s.len() - 1].0));
        }
        assert(e.1.len() > 0) by {
            assert(s[s.len() - 1] == e);
        }
        lemma_used_extend(used_rows(d), d, e.0, e.1, e.1.len() as int);
        assert(group_rows(e.0, e.1).take(e.1.len() as int) =~= group_rows(e.0, e.1));
        assert(e.1.take(e.1.len() as int) =~= e.1);
        assert(d.push((e.0, e.1)) =~= s);
    } else {
        assert(used_rows(s) =~= Seq::<ValueSpec>::empty());
        assert(s =~= Seq::<((u32, u32), Seq<Seq<u8>>)>::empty());
    }
}

proof fn lemma_rows_nest(rows: Seq<ValueSpec>)
    requires
        forall|i: int| 0 <= i < rows.len() ==> (#[trigger] rows[i] matches ValueSpec::Array(r) && forall|j: int|
            0 <= j < r.len() ==> !(r[j] is Array) && !(r[j] is Dict)),
    ensures
        nesting(ValueSpec::Array(rows)) <= 2,
{
    assert forall|i: int| 0 <= i < rows.len() implies nesting(#[trigger] rows[i]) <= 1 by {
        if let ValueSpec::Array(r) = rows[i] {
            assert forall|j: int| 0 <= j < r.len() implies nesting(#[trigger] r[j]) <= 0 by {
                assert(!(r[j] is Array) && !(r[j] is Dict));
            }
            lemma_nesting_items_bound(r, 0);
        }
    }
    lemma_nesting_items_bound(rows, 1);
}

proof fn lemma_used_rows_shape(s: Seq<((u32, u32), Seq<Seq<u8>>)>)
    ensures
        forall|i: int| 0 <= i < used_rows(s).len() ==> #[trigger] used_rows(s)[i] == used_row(
            used_rows_key(s, i),
            used_rows_key_bytes(s, i),
        ),
    decreases s.len(),
{
    if s.len() > 0 {
        lemma_used_rows_shape(s.drop_last());
    }
}

spec fn used_rows_key(s: Seq<((u32, u32), Seq<Seq<u8>>)>, i: int) -> (u32, u32)
    decreases s.len(),
{
    if s.len() == 0 {
        (0, 0)
    } else if i < used_rows(s.drop_last()).len() {
        used_rows_key(s.drop_last(), i)
    } else {
        s.last().0
    }
}

spec fn used_rows_key_bytes(s: Seq<((u32, u32), Seq<Seq<u8>>)>, i: int) -> Seq<u8>
    decreases s.len(),
{
    if s.len() == 0 {
        seq![]
    } else if i < used_rows(s.drop_last()).len() {
        used_rows_key_bytes(s.drop_last(), i)
    } else {
        s.last().1[i - used_rows(s.drop_last()).len()]
    }
}

/// A stored image reads back as the same image: key pair, registration
/// id, every identity, prekey, used base key and session.
pub proof fn law_image_roundtrip(v: ImageView)
    requires
        image_ok(v),
        well_formed(ValueSpec::Dict(image_entries(v))),
    ensures
        image_decoded(enc(ValueSpec::Dict(image_entries(v)))) == Some(v),
{
    let e = image_entries(v);
    lemma_rows_nest(addr_rows(v.known));
    lemma_rows_nest(id_rows(v.prekeys));
    lemma_rows_nest(id_rows(v.signed));
    lemma_rows_nest(id_rows(v.kyber));
    lemma_used_rows_shape(v.used);
    lemma_rows_nest(used_rows(v.used));
    lemma_rows_nest(addr_rows(v.sessions));
    assert forall|j: int| 0 <= j < e.len() implies nesting(#[trigger] e[j].1) <= 2 by {}
    lemma_nesting_entries_bound(e, 2);
    law_decode_encode(ValueSpec::Dict(e));
    reveal_with_fuel(lookup, 9);
    lemma_addrs_roundtrip(v.known);
    lemma_addrs_roundtrip(v.sessions);
    lemma_ids_roundtrip(v.prekeys);
    lemma_ids_roundtrip(v.signed);
    lemma_ids_roundtrip(v.kyber);
    lemma_used_roundtrip(v.used);
    lemma_put_all_sorted::<Address, Seq<u8>>(v.known);
    lemma_put_all_sorted::<Address, Seq<u8>>(v.sessions);
    lemma_put_all_sorted::<u32, Seq<u8>>(v.prekeys);
    lemma_put_all_sorted::<u32, Seq<u8>>(v.signed);
    lemma_put_all_sorted::<u32, Seq<u8>>(v.kyber);
    assert(((v.registration_id as u64) as u32) == v.registration_id);
}


/// A store's stored form depends on its contents only: two well-formed
/// stores that give the same value for every key in every list, with the
/// same key pair and registration id, are the same store and encode to the
/// same bytes, whatever order their entries were put in.
pub proof fn law_image_canonical(a: ImageView, b: ImageView)
    requires
        image_ok(a),
        image_ok(b),
        a.key_pair == b.key_pair,
        a.registration_id == b.registration_id,
        forall|k: AddressView| #[trigger] key_value::<Address, Seq<u8>>(a.known, k) == key_value::<Address, Seq<u8>>(b.known, k),
        forall|k: u32| #[trigger] key_value::<u32, Seq<u8>>(a.prekeys, k) == key_value::<u32, Seq<u8>>(b.prekeys, k),
        forall|k: u32| #[trigger] key_value::<u32, Seq<u8>>(a.signed, k) == key_value::<u32, Seq<u8>>(b.signed, k),
        forall|k: u32| #[trigger] key_value::<u32, Seq<u8>>(a.kyber, k) == key_value::<u32, Seq<u8>>(b.kyber, k),
        forall|k: (u32, u32)| #[trigger] key_value::<(u32, u32), Seq<Seq<u8>>>(a.used, k) == key_value::<(u32, u32), Seq<Seq<u8>>>(b.used, k),
        forall|k: AddressView| #[trigger] key_value::<Address, Seq<u8>>(a.sessions, k) == key_value::<Address, Seq<u8>>(b.sessions, k),
    ensures
        a == b,
        enc(ValueSpec::Dict(image_entries(a))) == enc(ValueSpec::Dict(image_entries(b))),
{
    law_sorted_unique::<Address, Seq<u8>>(a.known, b.known);
    law_sorted_unique::<u32, Seq<u8>>(a.prekeys, b.prekeys);
    law_sorted_unique::<u32, Seq<u8>>(a.signed, b.signed);
    law_sorted_unique::<u32, Seq<u8>>(a.kyber, b.kyber);
    law_sorted_unique::<(u32, u32), Seq<Seq<u8>>>(a.used, b.used);
    law_sorted_unique::<Address, Seq<u8>>(a.sessions, b.sessions);
}

} // verus!
