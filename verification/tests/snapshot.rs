use nemo::cbor::{encode, Value};
use nemo::error::CoreError;
use nemo::signal_image::StoreImage;
use nemo::snapshot::Snapshot;

fn store() -> Vec<u8> {
    StoreImage::new(vec![1, 2, 3], 4242).encode()
}

fn sample() -> Snapshot {
    Snapshot {
        identity_seed: [1; 32],
        revocation_public_key: [2; 32],
        store: store(),
        next_pre_key_id: 7,
        next_kyber_id: u32::MAX,
        signed_pre_key_id: 3,
        binding_seq: 99,
    }
}

#[test]
fn snapshot_roundtrip() {
    let s = sample();
    assert_eq!(Snapshot::decode(&s.encode()).unwrap(), s);
}

#[test]
fn snapshot_counters_keep_low_bits() {
    let m = vec![
        (0, Value::Uint(1)),
        (1, Value::Bytes(vec![1; 32])),
        (2, Value::Bytes(vec![2; 32])),
        (3, Value::Bytes(store())),
        (4, Value::Uint((1u64 << 32) + 5)),
        (5, Value::Uint(6)),
        (6, Value::Uint(7)),
        (7, Value::Uint(8)),
    ];
    let s = Snapshot::decode(&encode(&Value::Dict(m))).unwrap();
    assert_eq!(s.next_pre_key_id, 5);
}

#[test]
fn bad_snapshots_are_corrupt() {
    let mut m = vec![
        (0, Value::Uint(2)),
        (1, Value::Bytes(vec![1; 32])),
        (2, Value::Bytes(vec![2; 32])),
        (3, Value::Bytes(store())),
        (4, Value::Uint(1)),
        (5, Value::Uint(1)),
        (6, Value::Uint(1)),
        (7, Value::Uint(1)),
    ];
    assert_eq!(Snapshot::decode(&encode(&Value::Dict(m))).unwrap_err(), CoreError::VaultCorrupt);
    m = vec![
        (0, Value::Uint(1)),
        (1, Value::Bytes(vec![1; 31])),
        (2, Value::Bytes(vec![2; 32])),
        (3, Value::Bytes(store())),
        (4, Value::Uint(1)),
        (5, Value::Uint(1)),
        (6, Value::Uint(1)),
        (7, Value::Uint(1)),
    ];
    assert_eq!(Snapshot::decode(&encode(&Value::Dict(m))).unwrap_err(), CoreError::VaultCorrupt);
    assert_eq!(Snapshot::decode(&[]).unwrap_err(), CoreError::VaultCorrupt);
}

#[test]
fn snapshot_with_unreadable_store_is_corrupt() {
    let mut s = sample();
    s.store = vec![0xa0, 1, 2];
    assert_eq!(Snapshot::decode(&s.encode()).unwrap_err(), CoreError::VaultCorrupt);
    s.store = Vec::new();
    assert_eq!(Snapshot::decode(&s.encode()).unwrap_err(), CoreError::VaultCorrupt);
}
