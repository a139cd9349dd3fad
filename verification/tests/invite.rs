use nemo::cbor::{encode, Value};
use nemo::ffi::FfiError;
use nemo::hex::{from_hex, hex_bytes};
use nemo::invite::{join_request_uri, parse_delivery_cap, parse_join_request, JoinRequest};

fn request(proof: Option<Vec<u8>>, binding: Option<[u8; 32]>) -> JoinRequest {
    JoinRequest {
        group_id: [1; 32],
        pending_id: [2; 32],
        key_package: vec![3, 3, 3],
        signing_pk: [4; 32],
        cap: [5; 32],
        hpke: [6; 32],
        credential_id: [7; 32],
        nonce: [8; 32],
        proof,
        invitee_binding: binding,
    }
}

#[test]
fn hex_reads_back_either_case() {
    assert_eq!(from_hex("00ffA0"), Some(vec![0, 255, 160]));
    assert_eq!(from_hex(""), Some(vec![]));
    assert_eq!(from_hex("abc"), None);
    assert_eq!(from_hex("zz"), None);
    assert_eq!(from_hex(&hex_bytes(&[9, 8, 7])), Some(vec![9, 8, 7]));
}

#[test]
fn join_request_roundtrip() {
    for r in [
        request(None, None),
        request(Some(vec![9; 70]), None),
        request(None, Some([10; 32])),
        request(Some(vec![]), Some([11; 32])),
    ] {
        let uri = join_request_uri(&r);
        assert!(uri.starts_with("nemo-j:1:"));
        assert_eq!(parse_join_request(&uri).unwrap(), r);
    }
}

#[test]
fn join_request_refusals() {
    assert_eq!(
        parse_join_request("nemo-g:1:00").unwrap_err(),
        FfiError::Core("join request must start with nemo-j:1:".into())
    );
    assert!(parse_join_request("nemo-j:1:zz").is_err());
    assert!(parse_join_request("nemo-j:1:").is_err());
    // A map without the nonce reads it as zeros.
    let pairs = vec![
        (0, Value::Bytes(vec![1; 32])),
        (1, Value::Bytes(vec![2; 32])),
        (2, Value::Bytes(vec![])),
        (3, Value::Bytes(vec![4; 32])),
        (4, Value::Bytes(vec![5; 32])),
        (5, Value::Bytes(vec![6; 32])),
        (6, Value::Bytes(vec![7; 32])),
    ];
    let uri = format!("nemo-j:1:{}", hex_bytes(&encode(&Value::Dict(pairs))));
    let r = parse_join_request(&uri).unwrap();
    assert_eq!(r.nonce, [0; 32]);
    assert_eq!(r.proof, None);
    let short = vec![(0, Value::Bytes(vec![1; 31]))];
    let uri = format!("nemo-j:1:{}", hex_bytes(&encode(&Value::Dict(short))));
    assert!(parse_join_request(&uri).is_err());
}

#[test]
fn delivery_capability_after_hash() {
    let share = [1u8; 32];
    assert_eq!(parse_delivery_cap("nemo:card", share), Ok(share));
    assert_eq!(parse_delivery_cap("nemo:card#", share), Ok(share));
    let cap = hex_bytes(&[0xab; 32]);
    assert_eq!(parse_delivery_cap(&format!("nemo:card#{cap}"), share), Ok([0xab; 32]));
    assert!(parse_delivery_cap("nemo:card#abcd", share).is_err());
    assert!(parse_delivery_cap("nemo:card#xyz", share).is_err());
}
