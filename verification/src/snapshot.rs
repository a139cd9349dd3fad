//! The stored form of an installation: the identity seed, the revocation
//! key, the session store (in its own stored form), the prekey counters and
//! the binding number, as one CBOR map.

use vstd::prelude::*;
use crate::cbor::{Value, ValueSpec, enc, parse, lookup, map_get, view_entries, well_formed, nesting,
    law_decode_encode, lemma_nesting_entries_bound};
use crate::error::CoreError;
use crate::home::push_bytes_entry;
use crate::home_state::{uint_field, bytes_field, read_uint, push_entry};
use crate::ids::{KEY_LEN, array_to_vec, copy_key};
use crate::signal_image::{StoreImage, image_decoded};

verus! {

/// Version tag of the stored form.
pub const SNAPSHOT_VERSION: u64 = 1;

/// What an installation keeps between runs.
#[derive(Clone, Debug, PartialEq, Eq)]
pub struct Snapshot {
    /// Seed of the Ed25519 identity key.
    pub identity_seed: [u8; KEY_LEN],
    pub revocation_public_key: [u8; KEY_LEN],
    /// The session store's own stored form.
    pub store: Vec<u8>,
    pub next_pre_key_id: u32,
    pub next_kyber_id: u32,
    pub signed_pre_key_id: u32,
    pub binding_seq: u64,
}

pub struct SnapshotView {
    pub identity_seed: Seq<u8>,
    pub revocation_public_key: Seq<u8>,
    pub store: Seq<u8>,
    pub next_pre_key_id: u32,
    pub next_kyber_id: u32,
    pub signed_pre_key_id: u32,
    pub binding_seq: u64,
}

impl View for Snapshot {
    type V = SnapshotView;

    open spec fn view(&self) -> SnapshotView {
        SnapshotView {
            identity_seed: self.identity_seed@,
            revocation_public_key: self.revocation_public_key@,
            store: self.store@,
            next_pre_key_id: self.next_pre_key_id,
            next_kyber_id: self.next_kyber_id,
            signed_pre_key_id: self.signed_pre_key_id,
            binding_seq: self.binding_seq,
        }
    }
}

pub open spec fn snapshot_entries(s: SnapshotView) -> Seq<(u64, ValueSpec)> {
    seq![
        (0u64, ValueSpec::Uint(SNAPSHOT_VERSION)),
        (1u64, ValueSpec::Bytes(s.identity_seed)),
        (2u64, ValueSpec::Bytes(s.revocation_public_key)),
        (3u64, ValueSpec::Bytes(s.store)),
        (4u64, ValueSpec::Uint(s.next_pre_key_id as u64)),
        (5u64, ValueSpec::Uint(s.next_kyber_id as u64)),
        (6u64, ValueSpec::Uint(s.signed_pre_key_id as u64)),
        (7u64, ValueSpec::Uint(s.binding_seq)),
    ]
}

pub open spec fn key_bytes(m: Seq<(u64, ValueSpec)>, k: u64) -> Option<Seq<u8>> {
    match lookup(m, k) {
        Some(ValueSpec::Bytes(b)) => if b.len() == KEY_LEN {
            Some(b)
        } else {
            None
        },
        _ => None,
    }
}

/// The fields of a stored installation; the counters keep their low 32
/// bits. Anything missing, mistyped, of the wrong length or of another
/// version, or a session store that does not read back, makes it
/// unreadable.
pub open spec fn snapshot_from(m: Seq<(u64, ValueSpec)>) -> Option<SnapshotView> {
    if uint_field(m, 0) == Ok::<u64, crate::home::StoreFault>(SNAPSHOT_VERSION) && key_bytes(m, 1) is Some
        && key_bytes(m, 2) is Some && bytes_field(m, 3) is Ok && image_decoded(
        bytes_field(m, 3)->Ok_0,
    ) is Some && uint_field(m, 4) is Ok && uint_field(
        m,
        5,
    ) is Ok && uint_field(m, 6) is Ok && uint_field(m, 7) is Ok {
        Some(
            SnapshotView {
                identity_seed: key_bytes(m, 1)->0,
                revocation_public_key: key_bytes(m, 2)->0,
                store: bytes_field(m, 3)->Ok_0,
                next_pre_key_id: (uint_field(m, 4)->Ok_0) as u32,
                next_kyber_id: (uint_field(m, 5)->Ok_0) as u32,
                signed_pre_key_id: (uint_field(m, 6)->Ok_0) as u32,
                binding_seq: uint_field(m, 7)->Ok_0,
            },
        )
    } else {
        None
    }
}

pub open spec fn snapshot_decoded(b: Seq<u8>) -> Option<SnapshotView> {
    match parse(b, 0) {
        Some((ValueSpec::Dict(m), n)) => if n == b.len() {
            snapshot_from(m)
        } else {
            None
        },
        _ => None,
    }
}

fn read_key_bytes(m: &[(u64, Value)], k: u64) -> (r: Option<[u8; KEY_LEN]>)
    ensures
        match key_bytes(view_entries(m@), k) {
            Some(b) => r matches Some(a) && a@ == b,
            None => r is None,
        },
{
    match map_get(m, k) {
        Some(Value::Bytes(b)) => copy_key(b.as_slice()),
        _ => None,
    }
}

impl Snapshot {
    /// The stored form.
    pub fn encode(&self) -> (r: Vec<u8>)
        ensures
            r@ == enc(ValueSpec::Dict(snapshot_entries(self@))),
            well_formed(ValueSpec::Dict(snapshot_entries(self@))),
    {
        let mut pairs: Vec<(u64, Value)> = Vec::new();
        push_entry(&mut pairs, 0, Value::Uint(SNAPSHOT_VERSION));
        push_bytes_entry(&mut pairs, 1, &self.identity_seed);
        push_bytes_entry(&mut pairs, 2, &self.revocation_public_key);
        push_bytes_entry(&mut pairs, 3, self.store.as_slice());
        push_entry(&mut pairs, 4, Value::Uint(self.next_pre_key_id as u64));
        push_entry(&mut pairs, 5, Value::Uint(self.next_kyber_id as u64));
        push_entry(&mut pairs, 6, Value::Uint(self.signed_pre_key_id as u64));
        push_entry(&mut pairs, 7, Value::Uint(self.binding_seq));
        proof {
            assert(view_entries(Seq::<(u64, Value)>::empty()) == Seq::<(u64, ValueSpec)>::empty());
            assert(view_entries(pairs@) =~= snapshot_entries(self@));
        }
        crate::cbor::encode(&Value::Dict(pairs))
    }

    /// Reads the stored form back; anything unreadable is a corrupt vault.
    pub fn decode(bytes: &[u8]) -> (r: Result<Snapshot, CoreError>)
        ensures
            match snapshot_decoded(bytes@) {
                Some(s) => r matches Ok(x) && x@ == s,
                None => r == Err::<Snapshot, CoreError>(CoreError::VaultCorrupt),
            },
    {
        let m = match crate::cbor::decode(bytes) {
            Some(Value::Dict(m)) => m,
            _ => {
                return Err(CoreError::VaultCorrupt);
            },
        };
        let m = m.as_slice();
        let version = match read_uint(m, 0) {
            Ok(v) => v,
            Err(_) => {
                return Err(CoreError::VaultCorrupt);
            },
        };
        if version != SNAPSHOT_VERSION {
            return Err(CoreError::VaultCorrupt);
        }
        let identity_seed = match read_key_bytes(m, 1) {
            Some(a) => a,
            None => {
                return Err(CoreError::VaultCorrupt);
            },
        };
        let revocation_public_key = match read_key_bytes(m, 2) {
            Some(a) => a,
            None => {
                return Err(CoreError::VaultCorrupt);
            },
        };
        let store = match map_get(m, 3) {
            Some(Value::Bytes(b)) => array_to_vec(b.as_slice()),
            _ => {
                return Err(CoreError::VaultCorrupt);
            },
        };
        if let Err(e) = StoreImage::decode(store.as_slice()) {
            return Err(e);
        }
        let a = match read_uint(m, 4) {
            Ok(v) => v,
            Err(_) => {
                return Err(CoreError::VaultCorrupt);
            },
        };
        let b = match read_uint(m, 5) {
            Ok(v) => v,
            Err(_) => {
                return Err(CoreError::VaultCorrupt);
            },
        };
        let c = match read_uint(m, 6) {
            Ok(v) => v,
            Err(_) => {
                return Err(CoreError::VaultCorrupt);
            },
        };
        let binding_seq = match read_uint(m, 7) {
            Ok(v) => v,
            Err(_) => {
                return Err(CoreError::VaultCorrupt);
            },
        };
        Ok(
            Snapshot {
                identity_seed,
                revocation_public_key,
                store,
                next_pre_key_id: a as u32,
                next_kyber_id: b as u32,
                signed_pre_key_id: c as u32,
                binding_seq,
            },
        )
    }
}

/// A stored installation reads back unchanged.
pub proof fn law_snapshot_roundtrip(s: SnapshotView)
    requires
        s.identity_seed.len() == KEY_LEN,
        s.revocation_public_key.len() == KEY_LEN,
        image_decoded(s.store) is Some,
        well_formed(ValueSpec::Dict(snapshot_entries(s))),
    ensures
        snapshot_decoded(enc(ValueSpec::Dict(snapshot_entries(s)))) == Some(s),
{
    let e = snapshot_entries(s);
    assert forall|i: int| 0 <= i < e.len() implies nesting(#[trigger] e[i].1) <= 0 by {}
    lemma_nesting_entries_bound(e, 0);
    law_decode_encode(ValueSpec::Dict(e));
    reveal_with_fuel(lookup, 9);
    assert(snapshot_from(e) == Some(s));
}

} // verus!
