use nemo::app::{
    decode, decode_text, encode, encode_text, invite_ttl_bucket, random_call_id, AppBody, AppHeader, AppMessage,
    FileMeta, CONTACT_CAP_LEN, EMOJI_MAX_BYTES, TEXT_MAX_BYTES,
};
use nemo::cbor::{self, Value};
use nemo::error::CoreError;
use nemo::ice::reject_direct_ice;
use nemo::ids::{CALL_ID_LEN, KEY_LEN};

fn header(seq: u64) -> AppHeader {
    AppHeader { conv_seq: seq, sent_at: 1_700_000_000, reply_to: None }
}

fn roundtrip(body: AppBody) -> AppMessage {
    let msg = AppMessage { header: header(1), body };
    decode(&encode(&msg).unwrap()).unwrap()
}

fn relay(ip: &str) -> String {
    format!("candidate:1 1 udp 1 {ip} 3478 typ relay")
}

#[test]
fn text_roundtrip() {
    let bytes = encode_text(1, 1_700_000_000, "hello").unwrap();
    assert_eq!(decode_text(&bytes).unwrap(), (1, "hello".into()));
    let msg = decode(&bytes).unwrap();
    assert_eq!(msg.header.reply_to, None);
    assert_eq!(msg.body, AppBody::Text { text: "hello".into() });
}

#[test]
fn text_reply_to_and_too_long() {
    let msg = AppMessage {
        header: AppHeader { conv_seq: 2, sent_at: 1, reply_to: Some(1) },
        body: AppBody::Text { text: "re".into() },
    };
    let out = decode(&encode(&msg).unwrap()).unwrap();
    assert_eq!(out.header.reply_to, Some(1));
    let long = "x".repeat(TEXT_MAX_BYTES + 1);
    assert!(matches!(encode_text(1, 0, &long), Err(CoreError::TextTooLong)));
}

#[test]
fn attachment_1to1_and_group() {
    let meta = FileMeta {
        name: "a.bin".into(),
        mime: "application/octet-stream".into(),
        size: 3,
    };
    let one = roundtrip(AppBody::Attachment {
        enc_file: vec![1, 2, 3],
        meta: meta.clone(),
        fetch_token: None,
    });
    assert!(matches!(one.body, AppBody::Attachment { fetch_token: None, .. }));
    let token = [7u8; KEY_LEN];
    let group = roundtrip(AppBody::Attachment {
        enc_file: vec![],
        meta,
        fetch_token: Some(token),
    });
    match group.body {
        AppBody::Attachment { fetch_token, .. } => assert_eq!(fetch_token, Some(token)),
        _ => panic!("attachment"),
    }
}

#[test]
fn reaction_delete_ack_capability_gossip_disappear() {
    assert_eq!(
        roundtrip(AppBody::Reaction { target: 4, emoji: "👍".into() }).body,
        AppBody::Reaction { target: 4, emoji: "👍".into() }
    );
    assert!(matches!(
        encode(&AppMessage {
            header: header(1),
            body: AppBody::Reaction { target: 1, emoji: "x".repeat(EMOJI_MAX_BYTES + 1) },
        }),
        Err(CoreError::EmojiTooLong)
    ));
    assert_eq!(roundtrip(AppBody::Delete { target: 9 }).body, AppBody::Delete { target: 9 });
    assert_eq!(
        roundtrip(AppBody::ProtocolAck { upto: 12 }).body,
        AppBody::ProtocolAck { upto: 12 }
    );
    let cap = [3u8; CONTACT_CAP_LEN];
    assert_eq!(
        roundtrip(AppBody::Capability { contact_capability: cap }).body,
        AppBody::Capability { contact_capability: cap }
    );
    let gossip = AppBody::BindingGossip {
        identity_id: [1u8; KEY_LEN],
        seq: 4,
        server_id: [2u8; KEY_LEN],
    };
    assert_eq!(roundtrip(gossip.clone()).body, gossip);
    assert_eq!(
        roundtrip(AppBody::Disappear { seconds: 0 }).body,
        AppBody::Disappear { seconds: 0 }
    );
}

#[test]
fn call_signaling_relay_only() {
    let id = random_call_id().unwrap();
    let ice = vec![relay("203.0.113.1")];
    let invite = AppMessage {
        header: header(1),
        body: AppBody::CallInvite {
            call_id: id,
            sdp: "v=0".into(),
            dtls_fp: "sha-256 AA".into(),
            ice: ice.clone(),
            expires_at: 1_700_000_060,
        },
    };
    assert_eq!(decode(&encode(&invite).unwrap()).unwrap(), invite);
    assert_eq!(
        roundtrip(AppBody::CallRinging { call_id: id }).body,
        AppBody::CallRinging { call_id: id }
    );
    assert_eq!(
        roundtrip(AppBody::CallAnswer {
            call_id: id,
            sdp: "v=0".into(),
            dtls_fp: "sha-256 BB".into(),
            ice: ice.clone(),
        })
        .body,
        AppBody::CallAnswer {
            call_id: id,
            sdp: "v=0".into(),
            dtls_fp: "sha-256 BB".into(),
            ice,
        }
    );
    assert_eq!(
        roundtrip(AppBody::CallIce { call_id: id, ice: vec![relay("198.51.100.2")] }).msg_type(),
        "call_ice"
    );
    assert_eq!(
        roundtrip(AppBody::CallReject { call_id: id }).body,
        AppBody::CallReject { call_id: id }
    );
    assert_eq!(
        roundtrip(AppBody::CallCancel { call_id: id }).body,
        AppBody::CallCancel { call_id: id }
    );
    assert_eq!(roundtrip(AppBody::CallEnd { call_id: id }).body, AppBody::CallEnd { call_id: id });
}

#[test]
fn rejects_host_and_srflx_ice() {
    let id = [9u8; CALL_ID_LEN];
    for typ in ["host", "srflx"] {
        let msg = AppMessage {
            header: header(1),
            body: AppBody::CallIce {
                call_id: id,
                ice: vec![format!("candidate:1 1 udp 1 192.0.2.1 9 typ {typ}")],
            },
        };
        assert!(matches!(encode(&msg), Err(CoreError::DirectIceForbidden)), "{typ}");
    }
}

#[test]
fn unknown_msg_type_is_ignored() {
    let bytes = cbor::encode(&Value::Dict(vec![
        (0, Value::Uint(1)),
        (1, Value::Text("future_type".into())),
        (2, Value::Uint(1)),
        (3, Value::Uint(0)),
    ]));
    let msg = decode(&bytes).unwrap();
    assert_eq!(msg.body, AppBody::Unknown { msg_type: "future_type".into() });
    assert!(decode_text(&bytes).is_err());
    assert!(encode(&msg).is_err());
}

#[test]
fn signaling_rejects_host_ice() {
    let msg = AppMessage {
        header: AppHeader { conv_seq: 1, sent_at: 1, reply_to: None },
        body: AppBody::CallInvite {
            call_id: [1; CALL_ID_LEN],
            sdp: "v=0".into(),
            dtls_fp: "sha-256 aa".into(),
            ice: vec!["candidate:1 1 udp 1 192.0.2.1 9 typ host".into()],
            expires_at: 2,
        },
    };
    assert!(matches!(encode(&msg), Err(CoreError::DirectIceForbidden)));
}

#[test]
fn text_encoding_bytes_are_exact() {
    let bytes = encode_text(1, 2, "hi").unwrap();
    assert_eq!(
        bytes,
        vec![
            0xa5, 0x00, 0x01, 0x01, 0x64, b't', b'e', b'x', b't', 0x02, 0x01, 0x03, 0x02, 0x05,
            0x62, b'h', b'i'
        ]
    );
}

#[test]
fn text_at_limit_is_accepted() {
    let text = "y".repeat(TEXT_MAX_BYTES);
    let bytes = encode_text(5, 6, &text).unwrap();
    assert_eq!(decode_text(&bytes).unwrap(), (5, text));
}

#[test]
fn other_version_is_refused() {
    let bytes = cbor::encode(&Value::Dict(vec![
        (0, Value::Uint(2)),
        (1, Value::Text("text".into())),
        (2, Value::Uint(1)),
        (3, Value::Uint(0)),
        (5, Value::Text("x".into())),
    ]));
    assert_eq!(decode(&bytes), Err(CoreError::UnknownVersion(2)));
}

#[test]
fn malformed_messages_are_wire_errors() {
    assert!(matches!(decode(&[0xff]), Err(CoreError::Wire(_))));
    assert!(matches!(decode(&cbor::encode(&Value::Uint(3))), Err(CoreError::Wire(_))));
    let missing_text = cbor::encode(&Value::Dict(vec![
        (0, Value::Uint(1)),
        (1, Value::Text("text".into())),
        (2, Value::Uint(1)),
        (3, Value::Uint(0)),
    ]));
    assert!(matches!(decode(&missing_text), Err(CoreError::Wire(_))));
    let short_id = cbor::encode(&Value::Dict(vec![
        (0, Value::Uint(1)),
        (1, Value::Text("call_end".into())),
        (2, Value::Uint(1)),
        (3, Value::Uint(0)),
        (5, Value::Bytes(vec![1, 2, 3])),
    ]));
    assert!(matches!(decode(&short_id), Err(CoreError::Wire(_))));
    let mut trailing = encode_text(1, 2, "hi").unwrap();
    trailing.push(0);
    assert!(matches!(decode(&trailing), Err(CoreError::Wire(_))));
}

#[test]
fn decode_refuses_direct_ice_and_long_text() {
    let bytes = cbor::encode(&Value::Dict(vec![
        (0, Value::Uint(1)),
        (1, Value::Text("call_ice".into())),
        (2, Value::Uint(1)),
        (3, Value::Uint(0)),
        (5, Value::Bytes(vec![0; CALL_ID_LEN])),
        (6, Value::Array(vec![Value::Text("a 1 UDP 1 x 9 TYP SRFLX".into())])),
    ]));
    assert_eq!(decode(&bytes), Err(CoreError::DirectIceForbidden));
    let long = cbor::encode(&Value::Dict(vec![
        (0, Value::Uint(1)),
        (1, Value::Text("text".into())),
        (2, Value::Uint(1)),
        (3, Value::Uint(0)),
        (5, Value::Text("z".repeat(TEXT_MAX_BYTES + 1))),
    ]));
    assert_eq!(decode(&long), Err(CoreError::TextTooLong));
}

#[test]
fn ice_rule_reads_whole_words() {
    assert!(reject_direct_ice(&["candidate typ hostile".to_string()]).is_ok());
    assert!(reject_direct_ice(&["candidate\ttyp\u{3000}host".to_string()]).is_err());
    assert!(reject_direct_ice(&["typhost".to_string()]).is_ok());
    assert!(reject_direct_ice(&[]).is_ok());
}

#[test]
fn random_call_ids_differ() {
    assert_ne!(random_call_id().unwrap(), random_call_id().unwrap());
}

#[test]
fn call_invites_live_one_minute() {
    assert_eq!(invite_ttl_bucket(), nemo::mailbox::TtlBucket::Seconds60);
}
