use nemo::cbor::{decode, encode, Value};

#[test]
fn shortest_heads() {
    assert_eq!(encode(&Value::Uint(23)), vec![0x17]);
    assert_eq!(encode(&Value::Uint(24)), vec![0x18, 24]);
    assert_eq!(encode(&Value::Uint(256)), vec![0x19, 1, 0]);
    assert_eq!(encode(&Value::Uint(65_536)), vec![0x1a, 0, 1, 0, 0]);
    assert_eq!(encode(&Value::Uint(1 << 32)), vec![0x1b, 0, 0, 0, 1, 0, 0, 0, 0]);
    assert_eq!(encode(&Value::Bytes(vec![1, 2])), vec![0x42, 1, 2]);
    assert_eq!(encode(&Value::Text("a".into())), vec![0x61, b'a']);
}

#[test]
fn non_shortest_heads_are_refused() {
    assert!(decode(&[0x18, 23]).is_none());
    assert!(decode(&[0x19, 0, 255]).is_none());
    assert!(decode(&[0x1c]).is_none());
    assert!(decode(&[0x17]).is_some());
}

#[test]
fn nested_values_roundtrip() {
    let v = Value::Dict(vec![
        (1, Value::Array(vec![Value::Uint(1), Value::Text("é".into())])),
        (2, Value::Bytes(vec![0; 300])),
    ]);
    let bytes = encode(&v);
    let back = decode(&bytes).unwrap();
    assert_eq!(encode(&back), bytes);
}

#[test]
fn too_deep_is_refused() {
    let mut v = Value::Uint(0);
    for _ in 0..17 {
        v = Value::Array(vec![v]);
    }
    assert!(decode(&encode(&v)).is_none());
    let mut w = Value::Uint(0);
    for _ in 0..16 {
        w = Value::Array(vec![w]);
    }
    assert!(decode(&encode(&w)).is_some());
}

#[test]
fn invalid_utf8_text_is_refused() {
    assert!(decode(&[0x61, 0xff]).is_none());
}
