//! The vault's key material: the passphrase rule, the Argon2id key
//! derivation and its stored parameters, the device secret mixed into the
//! derived key, and how a database error reads. Files and the database
//! itself are outside the library.

use vstd::prelude::*;
use crate::cbor::{Value, ValueSpec, lookup, map_get, enc, parse, view_entries, lemma_view_entries_len};
use crate::error::CoreError;

verus! {

/// Vault format: passphrase mixed with a device secret.
pub const KDF_VERSION: u64 = 2;

/// Vault format: passphrase only.
pub const KDF_VERSION_PASSPHRASE_ONLY: u64 = 1;

/// Argon2id memory cost in KiB.
pub const M_COST_KIB: u32 = 65536;

/// Argon2id passes.
pub const T_COST: u32 = 3;

/// Argon2id lanes.
pub const P_COST: u32 = 1;

/// Salt length written by this build.
pub const SALT_LEN: usize = 16;

/// Length of the vault key and of the device secret.
pub const KEY_LEN: usize = 32;

/// Shortest accepted passphrase, in characters.
pub const MIN_PASSPHRASE_CHARS: usize = 8;

/// A passphrase needs at least [`MIN_PASSPHRASE_CHARS`] characters.
pub fn check_passphrase(passphrase: &str) -> (r: Result<(), CoreError>)
    ensures
        passphrase@.len() < MIN_PASSPHRASE_CHARS ==> r == Err::<(), CoreError>(
            CoreError::WeakPassphrase,
        ),
        passphrase@.len() >= MIN_PASSPHRASE_CHARS ==> r is Ok,
{
    if passphrase.unicode_len() < MIN_PASSPHRASE_CHARS {
        return Err(CoreError::WeakPassphrase);
    }
    Ok(())
}

/// The passphrase key with the device secret mixed in (byte-wise XOR).
pub open spec fn mixed(key: Seq<u8>, device: Seq<u8>) -> Seq<u8> {
    Seq::new(key.len(), |i: int| key[i] ^ device[i])
}

/// Mixes the device secret into the passphrase key.
pub fn mix_device_key(pass_key: &mut [u8; KEY_LEN], device: &[u8; KEY_LEN])
    ensures
        final(pass_key)@ == mixed(old(pass_key)@, device@),
{
    let ghost before = pass_key@;
    let mut i: usize = 0;
    while i < KEY_LEN
        invariant
            i <= KEY_LEN,
            pass_key@.len() == KEY_LEN,
            before.len() == KEY_LEN,
            device@.len() == KEY_LEN,
            forall|k: int| 0 <= k < i ==> pass_key@[k] == before[k] ^ device@[k],
            forall|k: int| i <= k < KEY_LEN ==> pass_key@[k] == before[k],
        decreases KEY_LEN - i,
    {
        pass_key[i] = pass_key[i] ^ device[i];
        i = i + 1;
    }
    assert(pass_key@ =~= mixed(before, device@));
}

/// Mixing the same device secret twice gives back the passphrase key.
pub proof fn law_mix_twice(key: Seq<u8>, device: Seq<u8>)
    requires
        key.len() <= device.len(),
    ensures
        mixed(mixed(key, device), device) == key,
{
    assert forall|i: int| 0 <= i < key.len() implies #[trigger] mixed(mixed(key, device), device)[i]
        == key[i] by {
        let a = key[i];
        let d = device[i];
        assert((a ^ d) ^ d == a) by (bit_vector);
    }
    assert(mixed(mixed(key, device), device) =~= key);
}

/// Overwrites key material with zeros.
pub fn zero(key: &mut [u8; KEY_LEN])
    ensures
        forall|i: int| 0 <= i < KEY_LEN ==> #[trigger] final(key)@[i] == 0,
{
    let mut i: usize = 0;
    while i < KEY_LEN
        invariant
            i <= KEY_LEN,
            key@.len() == KEY_LEN,
            forall|k: int| 0 <= k < i ==> #[trigger] key@[k] == 0,
        decreases KEY_LEN - i,
    {
        key[i] = 0;
        i = i + 1;
    }
}

/// Argon2id parameters that `argon2::Params::new` accepts for a 32-byte key.
pub open spec fn params_ok(m_cost: u32, t_cost: u32, p_cost: u32) -> bool {
    m_cost >= 8 && m_cost >= 8 * p_cost && t_cost >= 1 && 1 <= p_cost <= 0xff_ffff
}

/// The Argon2id (version 0x13) hash of a password into 32 bytes, or `None`
/// when the crate refuses the inputs.
pub uninterp spec fn argon2id_key(pwd: Seq<u8>, salt: Seq<u8>, m_cost: u32, t_cost: u32, p_cost: u32) -> Option<Seq<u8>>;

/// `argon2::Argon2::new(Algorithm::Argon2id, Version::V0x13, Params::new(..,
/// Some(32)))` and `hash_password_into`: the 32-byte key, or `None` when
/// `Params::new` or the hash refuses its inputs; parameters that
/// `Params::new` refuses always give `None`.
#[verifier::external_body]
fn argon2id_hash(pwd: &[u8], salt: &[u8], m_cost: u32, t_cost: u32, p_cost: u32) -> (r: Option<[u8; KEY_LEN]>)
    requires
        p_cost <= 0x1fff_ffff,
    ensures
        match r {
            Some(k) => argon2id_key(pwd@, salt@, m_cost, t_cost, p_cost) == Some(k@),
            None => argon2id_key(pwd@, salt@, m_cost, t_cost, p_cost) is None,
        },
        !params_ok(m_cost, t_cost, p_cost) ==> r is None,
{
    let params = argon2::Params::new(m_cost, t_cost, p_cost, Some(KEY_LEN)).ok()?;
    let argon = argon2::Argon2::new(argon2::Algorithm::Argon2id, argon2::Version::V0x13, params);
    let mut key = [0u8; KEY_LEN];
    argon.hash_password_into(pwd, salt, &mut key).ok()?;
    Some(key)
}

/// The vault key for a passphrase: Argon2id over its UTF-8 bytes. Inputs
/// the hash refuses make the vault unreadable.
pub fn derive(passphrase: &str, salt: &[u8], m_cost: u32, t_cost: u32, p_cost: u32) -> (r: Result<
    [u8; KEY_LEN],
    CoreError,
>)
    requires
        p_cost <= 0x1fff_ffff,
    ensures
        match argon2id_key(vstd::utf8::encode_utf8(passphrase@), salt@, m_cost, t_cost, p_cost) {
            Some(k) => r matches Ok(x) && x@ == k,
            None => r == Err::<[u8; KEY_LEN], CoreError>(CoreError::VaultCorrupt),
        },
{
    match argon2id_hash(passphrase.as_bytes(), salt, m_cost, t_cost, p_cost) {
        Some(k) => Ok(k),
        None => Err(CoreError::VaultCorrupt),
    }
}

/// Stored key-derivation parameters.
#[derive(Clone, Debug, PartialEq, Eq)]
pub struct Kdf {
    pub version: u64,
    pub salt: Vec<u8>,
    pub m_cost: u32,
    pub t_cost: u32,
    pub p_cost: u32,
}

/// The CBOR map the parameters are stored as.
pub open spec fn kdf_entries(version: u64, salt: Seq<u8>, m: u32, t: u32, p: u32) -> Seq<(u64, ValueSpec)> {
    seq![
        (0u64, ValueSpec::Uint(version)),
        (1u64, ValueSpec::Bytes(salt)),
        (2u64, ValueSpec::Uint(m as u64)),
        (3u64, ValueSpec::Uint(t as u64)),
        (4u64, ValueSpec::Uint(p as u64)),
    ]
}

/// The stored form of the parameters.
pub fn kdf_bytes(version: u64, salt: &[u8], m_cost: u32, t_cost: u32, p_cost: u32) -> (r: Vec<u8>)
    ensures
        r@ == enc(ValueSpec::Dict(kdf_entries(version, salt@, m_cost, t_cost, p_cost))),
{
    let entries = vec![
        (0u64, Value::Uint(version)),
        (1u64, Value::Bytes(crate::ids::array_to_vec(salt))),
        (2u64, Value::Uint(m_cost as u64)),
        (3u64, Value::Uint(t_cost as u64)),
        (4u64, Value::Uint(p_cost as u64)),
    ];
    proof {
        lemma_view_entries_len(entries@);
        assert(view_entries(entries@) =~= kdf_entries(version, salt@, m_cost, t_cost, p_cost));
    }
    crate::cbor::encode(&Value::Dict(entries))
}

pub open spec fn uint_at(m: Seq<(u64, ValueSpec)>, k: u64) -> Option<u64> {
    match lookup(m, k) {
        Some(ValueSpec::Uint(n)) => Some(n),
        _ => None,
    }
}

/// The parameters a stored form holds, if it is readable: a known version,
/// a salt of at least 8 bytes, and three costs (kept to their low 32 bits).
pub open spec fn kdf_of(b: Seq<u8>) -> Option<(u64, Seq<u8>, u32, u32, u32)> {
    match parse(b, 0) {
        Some((ValueSpec::Dict(m), n)) => if n != b.len() {
            None
        } else {
            match (uint_at(m, 0), lookup(m, 1), uint_at(m, 2), uint_at(m, 3), uint_at(m, 4)) {
                (Some(v), Some(ValueSpec::Bytes(salt)), Some(mc), Some(tc), Some(pc)) => if (v
                    == KDF_VERSION || v == KDF_VERSION_PASSPHRASE_ONLY) && salt.len() >= 8 {
                    Some((v, salt, mc as u32, tc as u32, pc as u32))
                } else {
                    None
                },
                _ => None,
            }
        },
        _ => None,
    }
}

fn get_uint(m: &[(u64, Value)], k: u64) -> (r: Option<u64>)
    ensures
        r == uint_at(view_entries(m@), k),
{
    match map_get(m, k) {
        Some(Value::Uint(n)) => Some(*n),
        _ => None,
    }
}

/// Reads stored parameters; anything unreadable is a corrupt vault.
pub fn parse_kdf(bytes: &[u8]) -> (r: Result<Kdf, CoreError>)
    ensures
        match kdf_of(bytes@) {
            Some((v, salt, m, t, p)) => r matches Ok(k) && k.version == v && k.salt@ == salt
                && k.m_cost == m && k.t_cost == t && k.p_cost == p,
            None => r == Err::<Kdf, CoreError>(CoreError::VaultCorrupt),
        },
{
    let m = match crate::cbor::decode(bytes) {
        Some(Value::Dict(m)) => m,
        _ => {
            return Err(CoreError::VaultCorrupt);
        },
    };
    let version = match get_uint(m.as_slice(), 0) {
        Some(v) => v,
        None => {
            return Err(CoreError::VaultCorrupt);
        },
    };
    let salt = match map_get(m.as_slice(), 1) {
        Some(Value::Bytes(s)) => crate::ids::array_to_vec(s.as_slice()),
        _ => {
            return Err(CoreError::VaultCorrupt);
        },
    };
    let (mc, tc, pc) = match (get_uint(m.as_slice(), 2), get_uint(m.as_slice(), 3), get_uint(m.as_slice(), 4)) {
        (Some(a), Some(b), Some(c)) => (a, b, c),
        _ => {
            return Err(CoreError::VaultCorrupt);
        },
    };
    if version != KDF_VERSION && version != KDF_VERSION_PASSPHRASE_ONLY {
        return Err(CoreError::VaultCorrupt);
    }
    if salt.len() < 8 {
        return Err(CoreError::VaultCorrupt);
    }
    Ok(Kdf { version, salt, m_cost: mc as u32, t_cost: tc as u32, p_cost: pc as u32 })
}

/// Stored parameters read back unchanged.
pub proof fn law_kdf_roundtrip(version: u64, salt: Seq<u8>, m: u32, t: u32, p: u32)
    requires
        version == KDF_VERSION || version == KDF_VERSION_PASSPHRASE_ONLY,
        8 <= salt.len() <= u64::MAX,
    ensures
        kdf_of(enc(ValueSpec::Dict(kdf_entries(version, salt, m, t, p)))) == Some((version, salt, m, t, p)),
{
    let e = kdf_entries(version, salt, m, t, p);
    reveal_with_fuel(lookup, 6);
    assert forall|i: int| 0 <= i < e.len() implies crate::cbor::nesting(#[trigger] e[i].1) <= 0
        && crate::cbor::well_formed(e[i].1) by {}
    crate::cbor::lemma_nesting_entries_bound(e, 0);
    crate::cbor::lemma_well_formed_entries_all(e);
    crate::cbor::law_decode_encode(ValueSpec::Dict(e));
    assert((m as u64) as u32 == m && (t as u64) as u32 == t && (p as u64) as u32 == p);
}

} // verus!
