//! The device-held secret mixed into the vault key. It is kept beside the
//! vault only under the platform's data directory or keyring, never next to
//! the database, so a copied vault directory does not unlock elsewhere.
//! Reading and writing those stores is the caller's; this module decides.

use vstd::prelude::*;
use crate::error::CoreError;
use crate::hex::{hex_bytes, hex_of};
use crate::ids::{KEY_LEN, copy_key};
use crate::rng::fill_random;

verus! {

/// Name of the device secret for a vault salt: `device-` and the salt in
/// lower-case hexadecimal. Used as the keyring account and the file name.
pub open spec fn account_of(salt: Seq<u8>) -> Seq<char> {
    "device-"@ + hex_of(salt)
}

pub fn account(salt: &[u8]) -> (r: String)
    ensures
        r@ == account_of(salt@),
{
    let mut s = String::from_str("device-");
    let h = hex_bytes(salt);
    s.append(h.as_str());
    s
}

/// A stored secret must be exactly [`KEY_LEN`] bytes.
pub fn parse_secret(bytes: &[u8]) -> (r: Result<[u8; KEY_LEN], CoreError>)
    ensures
        bytes@.len() == KEY_LEN ==> (r matches Ok(k) && k@ == bytes@),
        bytes@.len() != KEY_LEN ==> r == Err::<[u8; KEY_LEN], CoreError>(CoreError::VaultCorrupt),
{
    match copy_key(bytes) {
        Some(k) => Ok(k),
        None => Err(CoreError::VaultCorrupt),
    }
}

/// The device secret, and whether it is new (so the caller must store it in
/// the keyring and the bind file).
#[derive(Clone, Copy, Debug, PartialEq, Eq)]
pub enum DeviceSecret {
    Existing([u8; KEY_LEN]),
    Fresh([u8; KEY_LEN]),
}

/// Picks the device secret. An injected secret (a platform keystore) wins;
/// then the bind file, whose contents must be a key; then a keyring entry,
/// ignored when it is not a key. With none of them, `create` decides between
/// a fresh random secret and [`CoreError::VaultLocked`]; a fresh secret is
/// refused with [`CoreError::Randomness`] when the operating system gives no
/// random bytes.
pub fn resolve(
    injected: Option<&[u8]>,
    bind_file: Option<&[u8]>,
    keyring: Option<&[u8]>,
    create: bool,
) -> (r: Result<DeviceSecret, CoreError>)
    ensures
        match injected {
            Some(b) => if b@.len() == KEY_LEN {
                r matches Ok(DeviceSecret::Existing(k)) && k@ == b@
            } else {
                r == Err::<DeviceSecret, CoreError>(CoreError::VaultCorrupt)
            },
            None => match bind_file {
                Some(b) => if b@.len() == KEY_LEN {
                    r matches Ok(DeviceSecret::Existing(k)) && k@ == b@
                } else {
                    r == Err::<DeviceSecret, CoreError>(CoreError::VaultCorrupt)
                },
                None => if keyring matches Some(b) && b@.len() == KEY_LEN {
                    r matches Ok(DeviceSecret::Existing(k)) && k@ == keyring->0@
                } else if !create {
                    r == Err::<DeviceSecret, CoreError>(CoreError::VaultLocked)
                } else {
                    r matches Ok(DeviceSecret::Fresh(_)) || r == Err::<DeviceSecret, CoreError>(
                        CoreError::Randomness,
                    )
                },
            },
        },
{
    if let Some(b) = injected {
        return match parse_secret(b) {
            Ok(k) => Ok(DeviceSecret::Existing(k)),
            Err(e) => Err(e),
        };
    }
    if let Some(b) = bind_file {
        return match parse_secret(b) {
            Ok(k) => Ok(DeviceSecret::Existing(k)),
            Err(e) => Err(e),
        };
    }
    if let Some(b) = keyring {
        if let Ok(k) = parse_secret(b) {
            return Ok(DeviceSecret::Existing(k));
        }
    }
    if !create {
        return Err(CoreError::VaultLocked);
    }
    let mut secret = [0u8; KEY_LEN];
    if !fill_random(&mut secret) {
        return Err(CoreError::Randomness);
    }
    Ok(DeviceSecret::Fresh(secret))
}

} // verus!
