use nemo::device_bind::{account, parse_secret, resolve, DeviceSecret};
use nemo::error::CoreError;
use nemo::vault::{
    check_passphrase, kdf_bytes, mix_device_key, parse_kdf, zero, KDF_VERSION,
    KDF_VERSION_PASSPHRASE_ONLY,
};

#[test]
fn short_passphrases_are_weak() {
    assert_eq!(check_passphrase("1234567"), Err(CoreError::WeakPassphrase));
    assert_eq!(check_passphrase("12345678"), Ok(()));
    // Characters count, not bytes.
    assert_eq!(check_passphrase("ééééééé"), Err(CoreError::WeakPassphrase));
}

#[test]
fn mixing_twice_restores_the_key() {
    let mut k = [7u8; 32];
    let mut d = [0u8; 32];
    d[0] = 0xff;
    d[31] = 1;
    mix_device_key(&mut k, &d);
    assert_eq!(k[0], 7 ^ 0xff);
    assert_eq!(k[1], 7);
    assert_eq!(k[31], 6);
    mix_device_key(&mut k, &d);
    assert_eq!(k, [7u8; 32]);
}

#[test]
fn zero_clears_the_key() {
    let mut k = [9u8; 32];
    zero(&mut k);
    assert_eq!(k, [0u8; 32]);
}

#[test]
fn derive_matches_argon2id() {
    let salt = [1u8; 16];
    let got = nemo::vault::derive("correct horse", &salt, 64, 1, 1).unwrap();
    let params = argon2::Params::new(64, 1, 1, Some(32)).unwrap();
    let a = argon2::Argon2::new(argon2::Algorithm::Argon2id, argon2::Version::V0x13, params);
    let mut want = [0u8; 32];
    a.hash_password_into(b"correct horse", &salt, &mut want).unwrap();
    assert_eq!(got, want);
    assert_ne!(nemo::vault::derive("correct horse!", &salt, 64, 1, 1).unwrap(), got);
    // A salt too short for Argon2 makes the vault unreadable.
    assert_eq!(nemo::vault::derive("correct horse", &[1u8; 4], 64, 1, 1), Err(CoreError::VaultCorrupt));
}

#[test]
fn kdf_parameters_roundtrip() {
    let salt = vec![3u8; 16];
    let b = kdf_bytes(KDF_VERSION, &salt, 65536, 3, 1);
    let k = parse_kdf(&b).unwrap();
    assert_eq!(k.version, KDF_VERSION);
    assert_eq!(k.salt, salt);
    assert_eq!((k.m_cost, k.t_cost, k.p_cost), (65536, 3, 1));
    let old = parse_kdf(&kdf_bytes(KDF_VERSION_PASSPHRASE_ONLY, &salt, 8, 1, 1)).unwrap();
    assert_eq!(old.version, KDF_VERSION_PASSPHRASE_ONLY);
}

#[test]
fn unreadable_kdf_is_corrupt() {
    assert_eq!(parse_kdf(&kdf_bytes(3, &[3u8; 16], 1, 1, 1)), Err(CoreError::VaultCorrupt));
    assert_eq!(parse_kdf(&kdf_bytes(2, &[3u8; 7], 1, 1, 1)), Err(CoreError::VaultCorrupt));
    assert_eq!(parse_kdf(&[0xff]), Err(CoreError::VaultCorrupt));
    let mut b = kdf_bytes(2, &[3u8; 16], 1, 1, 1);
    b.push(0);
    assert_eq!(parse_kdf(&b), Err(CoreError::VaultCorrupt));
}

#[test]
fn device_account_names_the_salt() {
    assert_eq!(account(&[0x01, 0xab]), "device-01ab");
    assert_eq!(account(&[]), "device-");
}

#[test]
fn device_secret_must_be_a_key() {
    assert_eq!(parse_secret(&[5u8; 32]), Ok([5u8; 32]));
    assert_eq!(parse_secret(&[5u8; 31]), Err(CoreError::VaultCorrupt));
}

#[test]
fn device_secret_sources_in_order() {
    let a = [1u8; 32];
    let b = [2u8; 32];
    let c = [3u8; 32];
    assert_eq!(resolve(Some(&a), Some(&b), Some(&c), false), Ok(DeviceSecret::Existing(a)));
    assert_eq!(resolve(Some(&a[..5]), Some(&b), Some(&c), true), Err(CoreError::VaultCorrupt));
    assert_eq!(resolve(None, Some(&b), Some(&c), false), Ok(DeviceSecret::Existing(b)));
    assert_eq!(resolve(None, Some(&b[..3]), Some(&c), true), Err(CoreError::VaultCorrupt));
    assert_eq!(resolve(None, None, Some(&c), false), Ok(DeviceSecret::Existing(c)));
    // A keyring entry that is not a key is passed over.
    assert_eq!(resolve(None, None, Some(&c[..2]), false), Err(CoreError::VaultLocked));
    assert_eq!(resolve(None, None, None, false), Err(CoreError::VaultLocked));
    let fresh = resolve(None, None, None, true).unwrap();
    let again = resolve(None, None, None, true).unwrap();
    assert!(matches!(fresh, DeviceSecret::Fresh(_)));
    assert_ne!(fresh, again);
}
