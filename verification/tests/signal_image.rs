use nemo::cbor::{encode, Value};
use nemo::error::CoreError;
use nemo::signal_image::{Address, StoreImage};

fn addr(name: &str, device: u32) -> Address {
    Address { name: name.to_string(), device }
}

fn sample() -> StoreImage {
    let mut img = StoreImage::new(vec![1, 2, 3], 4242);
    img.put_known(addr("bob", 2), vec![0xb2]);
    img.put_known(addr("bob", 1), vec![0xb1]);
    img.put_known(addr("al", 1), vec![0xa1]);
    img.put_prekey(9, vec![9]);
    img.put_prekey(3, vec![3]);
    img.put_signed(1, vec![0x51]);
    img.put_kyber(7, vec![0x77]);
    assert!(img.mark_used(7, 1, vec![0xe1]));
    assert!(img.mark_used(2, 1, vec![0xe2]));
    assert!(img.mark_used(7, 1, vec![0xe3]));
    img.put_session(addr("zed", 1), vec![0x5e]);
    img
}

#[test]
fn image_maps_are_kept_in_key_order() {
    let img = sample();
    let known: Vec<(String, u32)> = img.known.iter().map(|(a, _)| (a.name.clone(), a.device)).collect();
    assert_eq!(known, vec![("al".to_string(), 1), ("bob".to_string(), 1), ("bob".to_string(), 2)]);
    let ids: Vec<u32> = img.prekeys.iter().map(|(k, _)| *k).collect();
    assert_eq!(ids, vec![3, 9]);
    let used: Vec<(u32, u32)> = img.used.iter().map(|(k, _)| *k).collect();
    assert_eq!(used, vec![(2, 1), (7, 1)]);
    assert_eq!(img.used[1].1 .0, vec![vec![0xe1], vec![0xe3]]);
}

#[test]
fn reused_base_key_is_refused() {
    let mut img = sample();
    assert!(!img.mark_used(7, 1, vec![0xe1]));
    assert!(img.mark_used(7, 2, vec![0xe1]));
}

#[test]
fn image_roundtrip() {
    let img = sample();
    let bytes = img.encode();
    let back = StoreImage::decode(&bytes).unwrap();
    assert_eq!(back.key_pair, img.key_pair);
    assert_eq!(back.registration_id, 4242);
    assert_eq!(back.known, img.known);
    assert_eq!(back.prekeys, img.prekeys);
    assert_eq!(back.signed, img.signed);
    assert_eq!(back.kyber, img.kyber);
    assert_eq!(back.sessions, img.sessions);
    assert_eq!(back.used.len(), 2);
    assert_eq!(back.used[1].1 .0, vec![vec![0xe1], vec![0xe3]]);
    assert_eq!(back.encode(), bytes);
}

#[test]
fn used_rows_are_flat_and_ordered() {
    let img = sample();
    let expected_used = Value::Array(vec![
        Value::Array(vec![Value::Uint(2), Value::Uint(1), Value::Bytes(vec![0xe2])]),
        Value::Array(vec![Value::Uint(7), Value::Uint(1), Value::Bytes(vec![0xe1])]),
        Value::Array(vec![Value::Uint(7), Value::Uint(1), Value::Bytes(vec![0xe3])]),
    ]);
    let mut min = StoreImage::new(vec![], 1);
    assert!(min.mark_used(7, 1, vec![0xe1]));
    assert!(min.mark_used(2, 1, vec![0xe2]));
    assert!(min.mark_used(7, 1, vec![0xe3]));
    let expected = encode(&Value::Dict(vec![
        (0, Value::Bytes(vec![])),
        (1, Value::Uint(1)),
        (2, Value::Array(vec![])),
        (3, Value::Array(vec![])),
        (4, Value::Array(vec![])),
        (5, Value::Array(vec![])),
        (6, expected_used),
        (7, Value::Array(vec![])),
    ]));
    assert_eq!(min.encode(), expected);
    assert!(img.encode().len() > expected.len());
}

fn image_with(known: Vec<Value>, prekeys: Vec<Value>) -> Vec<u8> {
    encode(&Value::Dict(vec![
        (0, Value::Bytes(vec![1])),
        (1, Value::Uint((1u64 << 32) + 5)),
        (2, Value::Array(known)),
        (3, Value::Array(prekeys)),
        (4, Value::Array(vec![])),
        (5, Value::Array(vec![])),
        (6, Value::Array(vec![])),
        (7, Value::Array(vec![])),
    ]))
}

#[test]
fn numbers_read_as_32_bits() {
    let bytes = image_with(
        vec![],
        vec![Value::Array(vec![Value::Uint((1u64 << 32) + 3), Value::Bytes(vec![3])])],
    );
    let img = StoreImage::decode(&bytes).unwrap();
    assert_eq!(img.registration_id, 5);
    assert_eq!(img.prekeys, vec![(3, vec![3])]);
}

#[test]
fn device_above_127_is_corrupt() {
    let bytes = image_with(
        vec![Value::Array(vec![Value::Text("x".to_string()), Value::Uint(128), Value::Bytes(vec![])])],
        vec![],
    );
    assert!(matches!(StoreImage::decode(&bytes), Err(CoreError::VaultCorrupt)));
    let ok = image_with(
        vec![Value::Array(vec![Value::Text("x".to_string()), Value::Uint(127), Value::Bytes(vec![])])],
        vec![],
    );
    assert_eq!(StoreImage::decode(&ok).unwrap().known, vec![(addr("x", 127), vec![])]);
}

#[test]
fn malformed_image_is_corrupt() {
    let short_row = image_with(vec![], vec![Value::Array(vec![Value::Uint(1)])]);
    assert!(matches!(StoreImage::decode(&short_row), Err(CoreError::VaultCorrupt)));
    let not_map = encode(&Value::Array(vec![]));
    assert!(matches!(StoreImage::decode(&not_map), Err(CoreError::VaultCorrupt)));
    let missing = encode(&Value::Dict(vec![(0, Value::Bytes(vec![])), (1, Value::Uint(1))]));
    assert!(matches!(StoreImage::decode(&missing), Err(CoreError::VaultCorrupt)));
}

#[test]
fn same_contents_encode_the_same_whatever_the_order() {
    let mut a = StoreImage::new(vec![1, 2, 3], 7);
    a.put_prekey(9, vec![9]);
    a.put_prekey(3, vec![3]);
    a.put_known(addr("bob", 2), vec![0xb2]);
    a.put_known(addr("al", 1), vec![0xa1]);
    a.put_session(addr("zed", 1), vec![0x5e]);
    let mut b = StoreImage::new(vec![1, 2, 3], 7);
    b.put_session(addr("zed", 1), vec![0x00]);
    b.put_known(addr("al", 1), vec![0xa1]);
    b.put_prekey(3, vec![3]);
    b.put_known(addr("bob", 2), vec![0xb2]);
    b.put_prekey(9, vec![9]);
    b.put_session(addr("zed", 1), vec![0x5e]);
    assert_eq!(a.encode(), b.encode());
}
