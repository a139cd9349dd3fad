//! Application plaintext: the message a conversation carries inside its
//! encrypted envelope. Servers never see these fields.
//!
//! A message is a CBOR map: key 0 the protocol version, 1 the message type,
//! 2 the conversation sequence number, 3 the send time, 4 the optional
//! message it replies to, and from 5 on the fields of the body.

use vstd::prelude::*;
use vstd::utf8::encode_utf8;
use crate::cbor::{
    Value, ValueSpec, lookup, map_get, enc, parse, view_entries, view_items, lemma_view_entries_push,
    lemma_view_entries_len, lemma_view_items_len, lemma_view_items_push, nesting, nesting_entries,
    nesting_items, well_formed, law_decode_encode, lemma_nesting_entries_bound,
    lemma_nesting_items_bound,
};
use crate::error::CoreError;
use crate::ice::{reject_direct_ice, direct_candidate};
use crate::ids::{KEY_LEN, CALL_ID_LEN, PROTOCOL_VERSION, copy_key, copy_call_id, array_to_vec};

verus! {

/// Longest text body, in UTF-8 bytes.
pub const TEXT_MAX_BYTES: usize = 8192;

/// Longest reaction emoji, in UTF-8 bytes.
pub const EMOJI_MAX_BYTES: usize = 32;

/// Length of a contact capability.
pub const CONTACT_CAP_LEN: usize = KEY_LEN;

#[derive(Clone, Copy, Debug, PartialEq, Eq, Structural)]
pub struct AppHeader {
    pub conv_seq: u64,
    pub sent_at: u64,
    pub reply_to: Option<u64>,
}

#[derive(Clone, Debug, PartialEq, Eq)]
pub struct FileMeta {
    pub name: String,
    pub mime: String,
    pub size: u64,
}

#[derive(Clone, Debug, PartialEq, Eq)]
pub enum AppBody {
    Text { text: String },
    Attachment {
        enc_file: Vec<u8>,
        meta: FileMeta,
        /// Groups only: the host's fetch token.
        fetch_token: Option<[u8; KEY_LEN]>,
    },
    Reaction { target: u64, emoji: String },
    Delete { target: u64 },
    ProtocolAck { upto: u64 },
    Capability { contact_capability: [u8; CONTACT_CAP_LEN] },
    BindingGossip { identity_id: [u8; KEY_LEN], seq: u64, server_id: [u8; KEY_LEN] },
    Disappear { seconds: u64 },
    CallInvite {
        call_id: [u8; CALL_ID_LEN],
        sdp: String,
        dtls_fp: String,
        ice: Vec<String>,
        expires_at: u64,
    },
    CallRinging { call_id: [u8; CALL_ID_LEN] },
    CallAnswer { call_id: [u8; CALL_ID_LEN], sdp: String, dtls_fp: String, ice: Vec<String> },
    CallIce { call_id: [u8; CALL_ID_LEN], ice: Vec<String> },
    CallReject { call_id: [u8; CALL_ID_LEN] },
    CallCancel { call_id: [u8; CALL_ID_LEN] },
    CallEnd { call_id: [u8; CALL_ID_LEN] },
    /// A message type this build does not know; decoded, never encoded.
    Unknown { msg_type: String },
}

#[derive(Clone, Debug, PartialEq, Eq)]
pub struct AppMessage {
    pub header: AppHeader,
    pub body: AppBody,
}

/// The content of a [`FileMeta`].
pub struct MetaView {
    pub name: Seq<char>,
    pub mime: Seq<char>,
    pub size: u64,
}

/// The content of an [`AppBody`]: strings as characters, ids as bytes.
pub enum BodyView {
    Text(Seq<char>),
    Attachment(Seq<u8>, MetaView, Option<Seq<u8>>),
    Reaction(u64, Seq<char>),
    Delete(u64),
    ProtocolAck(u64),
    Capability(Seq<u8>),
    BindingGossip(Seq<u8>, u64, Seq<u8>),
    Disappear(u64),
    CallInvite(Seq<u8>, Seq<char>, Seq<char>, Seq<Seq<char>>, u64),
    CallRinging(Seq<u8>),
    CallAnswer(Seq<u8>, Seq<char>, Seq<char>, Seq<Seq<char>>),
    CallIce(Seq<u8>, Seq<Seq<char>>),
    CallReject(Seq<u8>),
    CallCancel(Seq<u8>),
    CallEnd(Seq<u8>),
    Unknown(Seq<char>),
}

/// The content of an [`AppMessage`].
pub struct MessageView {
    pub header: AppHeader,
    pub body: BodyView,
}

pub open spec fn strings_view(v: Seq<String>) -> Seq<Seq<char>> {
    Seq::new(v.len(), |i: int| v[i]@)
}

impl View for FileMeta {
    type V = MetaView;

    open spec fn view(&self) -> MetaView {
        MetaView { name: self.name@, mime: self.mime@, size: self.size }
    }
}

impl View for AppBody {
    type V = BodyView;

    open spec fn view(&self) -> BodyView {
        match self {
            AppBody::Text { text } => BodyView::Text(text@),
            AppBody::Attachment { enc_file, meta, fetch_token } => BodyView::Attachment(
                enc_file@,
                meta@,
                match fetch_token {
                    Some(t) => Some(t@),
                    None => None,
                },
            ),
            AppBody::Reaction { target, emoji } => BodyView::Reaction(*target, emoji@),
            AppBody::Delete { target } => BodyView::Delete(*target),
            AppBody::ProtocolAck { upto } => BodyView::ProtocolAck(*upto),
            AppBody::Capability { contact_capability } => BodyView::Capability(
                contact_capability@,
            ),
            AppBody::BindingGossip { identity_id, seq, server_id } => BodyView::BindingGossip(
                identity_id@,
                *seq,
                server_id@,
            ),
            AppBody::Disappear { seconds } => BodyView::Disappear(*seconds),
            AppBody::CallInvite { call_id, sdp, dtls_fp, ice, expires_at } => BodyView::CallInvite(
                call_id@,
                sdp@,
                dtls_fp@,
                strings_view(ice@),
                *expires_at,
            ),
            AppBody::CallRinging { call_id } => BodyView::CallRinging(call_id@),
            AppBody::CallAnswer { call_id, sdp, dtls_fp, ice } => BodyView::CallAnswer(
                call_id@,
                sdp@,
                dtls_fp@,
                strings_view(ice@),
            ),
            AppBody::CallIce { call_id, ice } => BodyView::CallIce(call_id@, strings_view(ice@)),
            AppBody::CallReject { call_id } => BodyView::CallReject(call_id@),
            AppBody::CallCancel { call_id } => BodyView::CallCancel(call_id@),
            AppBody::CallEnd { call_id } => BodyView::CallEnd(call_id@),
            AppBody::Unknown { msg_type } => BodyView::Unknown(msg_type@),
        }
    }
}

impl View for AppMessage {
    type V = MessageView;

    open spec fn view(&self) -> MessageView {
        MessageView { header: self.header, body: self.body@ }
    }
}

/// The name a body travels under.
pub open spec fn wire_name(b: BodyView) -> Seq<char> {
    match b {
        BodyView::Text(..) => "text"@,
        BodyView::Attachment(..) => "attachment"@,
        BodyView::Reaction(..) => "reaction"@,
        BodyView::Delete(..) => "delete"@,
        BodyView::ProtocolAck(..) => "protocol_ack"@,
        BodyView::Capability(..) => "capability"@,
        BodyView::BindingGossip(..) => "binding_gossip"@,
        BodyView::Disappear(..) => "disappear"@,
        BodyView::CallInvite(..) => "call_invite"@,
        BodyView::CallRinging(..) => "call_ringing"@,
        BodyView::CallAnswer(..) => "call_answer"@,
        BodyView::CallIce(..) => "call_ice"@,
        BodyView::CallReject(..) => "call_reject"@,
        BodyView::CallCancel(..) => "call_cancel"@,
        BodyView::CallEnd(..) => "call_end"@,
        BodyView::Unknown(t) => t,
    }
}

/// Why a message cannot be encoded or decoded.
pub enum Fault {
    /// Malformed: not the map described above, a field missing or of the
    /// wrong type or length, or a message type that cannot be encoded.
    Wire,
    UnknownVersion(u64),
    TextTooLong,
    EmojiTooLong,
    DirectIce,
}

/// `e` is the error the library reports for `f`.
pub open spec fn reports(e: CoreError, f: Fault) -> bool {
    match f {
        Fault::Wire => e is Wire,
        Fault::UnknownVersion(v) => e == CoreError::UnknownVersion(v),
        Fault::TextTooLong => e == CoreError::TextTooLong,
        Fault::EmojiTooLong => e == CoreError::EmojiTooLong,
        Fault::DirectIce => e == CoreError::DirectIceForbidden,
    }
}

pub open spec fn any_direct(ice: Seq<Seq<char>>) -> bool {
    exists|i: int| 0 <= i < ice.len() && direct_candidate(#[trigger] ice[i])
}

/// The size and relay-only rules a known body must meet.
pub open spec fn body_fault(b: BodyView) -> Option<Fault> {
    match b {
        BodyView::Text(t) => if encode_utf8(t).len() > TEXT_MAX_BYTES {
            Some(Fault::TextTooLong)
        } else {
            None
        },
        BodyView::Reaction(_, e) => if encode_utf8(e).len() > EMOJI_MAX_BYTES {
            Some(Fault::EmojiTooLong)
        } else {
            None
        },
        BodyView::CallInvite(_, _, _, ice, _) => if any_direct(ice) {
            Some(Fault::DirectIce)
        } else {
            None
        },
        BodyView::CallAnswer(_, _, _, ice) => if any_direct(ice) {
            Some(Fault::DirectIce)
        } else {
            None
        },
        BodyView::CallIce(_, ice) => if any_direct(ice) {
            Some(Fault::DirectIce)
        } else {
            None
        },
        _ => None,
    }
}

pub open spec fn texts_value(ice: Seq<Seq<char>>) -> ValueSpec {
    ValueSpec::Array(Seq::new(ice.len(), |i: int| ValueSpec::Text(ice[i])))
}

pub open spec fn meta_value(m: MetaView) -> ValueSpec {
    ValueSpec::Dict(
        seq![(0u64, ValueSpec::Text(m.name)), (1u64, ValueSpec::Text(m.mime)), (2u64, ValueSpec::Uint(m.size))],
    )
}

/// The map entries of a body, from key 5 on.
pub open spec fn body_entries(b: BodyView) -> Seq<(u64, ValueSpec)> {
    match b {
        BodyView::Text(t) => seq![(5u64, ValueSpec::Text(t))],
        BodyView::Attachment(f, m, tok) => seq![
            (5u64, ValueSpec::Bytes(f)),
            (6u64, meta_value(m)),
        ] + match tok {
            Some(t) => seq![(7u64, ValueSpec::Bytes(t))],
            None => seq![],
        },
        BodyView::Reaction(t, e) => seq![(5u64, ValueSpec::Uint(t)), (6u64, ValueSpec::Text(e))],
        BodyView::Delete(t) => seq![(5u64, ValueSpec::Uint(t))],
        BodyView::ProtocolAck(u) => seq![(5u64, ValueSpec::Uint(u))],
        BodyView::Capability(c) => seq![(5u64, ValueSpec::Bytes(c))],
        BodyView::BindingGossip(id, s, sv) => seq![
            (5u64, ValueSpec::Bytes(id)),
            (6u64, ValueSpec::Uint(s)),
            (7u64, ValueSpec::Bytes(sv)),
        ],
        BodyView::Disappear(s) => seq![(5u64, ValueSpec::Uint(s))],
        BodyView::CallInvite(c, sdp, fp, ice, exp) => seq![
            (5u64, ValueSpec::Bytes(c)),
            (6u64, ValueSpec::Text(sdp)),
            (7u64, ValueSpec::Text(fp)),
            (8u64, texts_value(ice)),
            (9u64, ValueSpec::Uint(exp)),
        ],
        BodyView::CallRinging(c) => seq![(5u64, ValueSpec::Bytes(c))],
        BodyView::CallAnswer(c, sdp, fp, ice) => seq![
            (5u64, ValueSpec::Bytes(c)),
            (6u64, ValueSpec::Text(sdp)),
            (7u64, ValueSpec::Text(fp)),
            (8u64, texts_value(ice)),
        ],
        BodyView::CallIce(c, ice) => seq![(5u64, ValueSpec::Bytes(c)), (6u64, texts_value(ice))],
        BodyView::CallReject(c) => seq![(5u64, ValueSpec::Bytes(c))],
        BodyView::CallCancel(c) => seq![(5u64, ValueSpec::Bytes(c))],
        BodyView::CallEnd(c) => seq![(5u64, ValueSpec::Bytes(c))],
        BodyView::Unknown(_) => seq![],
    }
}

pub open spec fn header_entries(h: AppHeader, name: Seq<char>) -> Seq<(u64, ValueSpec)> {
    seq![
        (0u64, ValueSpec::Uint(PROTOCOL_VERSION)),
        (1u64, ValueSpec::Text(name)),
        (2u64, ValueSpec::Uint(h.conv_seq)),
        (3u64, ValueSpec::Uint(h.sent_at)),
    ] + match h.reply_to {
        Some(r) => seq![(4u64, ValueSpec::Uint(r))],
        None => seq![],
    }
}

/// The CBOR map a message is written as.
pub open spec fn message_value(m: MessageView) -> ValueSpec {
    ValueSpec::Dict(header_entries(m.header, wire_name(m.body)) + body_entries(m.body))
}

/// What [`encode`] gives for a message.
pub open spec fn encoded(m: MessageView) -> Result<Seq<u8>, Fault> {
    if m.body is Unknown {
        Err(Fault::Wire)
    } else {
        match body_fault(m.body) {
            Some(f) => Err(f),
            None => Ok(enc(message_value(m))),
        }
    }
}

/// The mailbox lifetime of a call invite: one minute.
pub fn invite_ttl_bucket() -> (t: crate::mailbox::TtlBucket)
    ensures
        t == crate::mailbox::TtlBucket::Seconds60,
{
    crate::mailbox::TtlBucket::Seconds60
}

/// A fresh random call id; refused when the operating system gave no
/// random bytes.
pub fn random_call_id() -> (r: Result<[u8; CALL_ID_LEN], CoreError>)
    ensures
        r is Err ==> r == Err::<[u8; CALL_ID_LEN], CoreError>(CoreError::Randomness),
{
    let mut id = [0u8; CALL_ID_LEN];
    if crate::rng::fill_random(&mut id) {
        Ok(id)
    } else {
        Err(CoreError::Randomness)
    }
}

fn wire(what: &str) -> (e: CoreError)
    ensures
        e matches CoreError::Wire(m) && m@ == what@,
{
    CoreError::Wire(String::from_str(what))
}

impl AppMessage {
    /// A text message that replies to nothing.
    pub fn text(conv_seq: u64, sent_at: u64, text: String) -> (m: AppMessage)
        ensures
            m@ == (MessageView {
                header: AppHeader { conv_seq, sent_at, reply_to: None },
                body: BodyView::Text(text@),
            }),
    {
        AppMessage {
            header: AppHeader { conv_seq, sent_at, reply_to: None },
            body: AppBody::Text { text },
        }
    }

    /// The name the body travels under.
    pub fn msg_type(&self) -> (r: &str)
        ensures
            r@ == wire_name(self@.body),
    {
        match &self.body {
            AppBody::Text { .. } => "text",
            AppBody::Attachment { .. } => "attachment",
            AppBody::Reaction { .. } => "reaction",
            AppBody::Delete { .. } => "delete",
            AppBody::ProtocolAck { .. } => "protocol_ack",
            AppBody::Capability { .. } => "capability",
            AppBody::BindingGossip { .. } => "binding_gossip",
            AppBody::Disappear { .. } => "disappear",
            AppBody::CallInvite { .. } => "call_invite",
            AppBody::CallRinging { .. } => "call_ringing",
            AppBody::CallAnswer { .. } => "call_answer",
            AppBody::CallIce { .. } => "call_ice",
            AppBody::CallReject { .. } => "call_reject",
            AppBody::CallCancel { .. } => "call_cancel",
            AppBody::CallEnd { .. } => "call_end",
            AppBody::Unknown { msg_type } => msg_type.as_str(),
        }
    }
}

fn check_ice(ice: &Vec<String>) -> (r: Result<(), CoreError>)
    ensures
        r is Ok <==> !any_direct(strings_view(ice@)),
        r matches Err(e) ==> e == CoreError::DirectIceForbidden,
{
    let r = reject_direct_ice(ice.as_slice());
    proof {
        let sv = strings_view(ice@);
        if r is Ok {
            assert forall|i: int| 0 <= i < sv.len() implies !direct_candidate(#[trigger] sv[i]) by {
                assert(sv[i] == ice@[i]@);
            }
        } else {
            let i = choose|i: int| 0 <= i < ice@.len() && direct_candidate(#[trigger] ice@[i]@);
            assert(sv[i] == ice@[i]@);
        }
    }
    r
}

/// Checks the size and relay-only rules of a known body.
fn validate(msg: &AppMessage) -> (r: Result<(), CoreError>)
    ensures
        match body_fault(msg@.body) {
            Some(f) => r matches Err(e) && reports(e, f),
            None => r is Ok,
        },
{
    match &msg.body {
        AppBody::Text { text } => {
            if text.as_str().as_bytes().len() > TEXT_MAX_BYTES {
                return Err(CoreError::TextTooLong);
            }
        },
        AppBody::Reaction { emoji, .. } => {
            if emoji.as_str().as_bytes().len() > EMOJI_MAX_BYTES {
                return Err(CoreError::EmojiTooLong);
            }
        },
        AppBody::CallInvite { ice, .. } => check_ice(ice)?,
        AppBody::CallAnswer { ice, .. } => check_ice(ice)?,
        AppBody::CallIce { ice, .. } => check_ice(ice)?,
        _ => {},
    }
    Ok(())
}

fn text_value(s: &String) -> (v: Value)
    ensures
        v@ == ValueSpec::Text(s@),
{
    Value::Text(s.clone())
}

fn bytes_value(b: &[u8]) -> (v: Value)
    ensures
        v@ == ValueSpec::Bytes(b@),
{
    Value::Bytes(array_to_vec(b))
}

fn encode_meta(meta: &FileMeta) -> (v: Value)
    ensures
        v@ == meta_value(meta@),
{
    let entries = vec![
        (0u64, text_value(&meta.name)),
        (1u64, text_value(&meta.mime)),
        (2u64, Value::Uint(meta.size)),
    ];
    proof {
        lemma_view_entries_len(entries@);
        assert(view_entries(entries@) =~= seq![
            (0u64, ValueSpec::Text(meta.name@)),
            (1u64, ValueSpec::Text(meta.mime@)),
            (2u64, ValueSpec::Uint(meta.size)),
        ]);
    }
    Value::Dict(entries)
}

fn ice_value(ice: &Vec<String>) -> (v: Value)
    ensures
        v@ == texts_value(strings_view(ice@)),
{
    let mut items: Vec<Value> = Vec::new();
    let mut i: usize = 0;
    while i < ice.len()
        invariant
            i <= ice@.len(),
            view_items(items@) =~= Seq::new(i as nat, |j: int| ValueSpec::Text(ice@[j]@)),
        decreases ice@.len() - i,
    {
        let v = text_value(&ice[i]);
        proof {
            lemma_view_items_push(items@, v);
        }
        items.push(v);
        i = i + 1;
        assert(view_items(items@) =~= Seq::new(i as nat, |j: int| ValueSpec::Text(ice@[j]@)));
    }
    let ghost sv = strings_view(ice@);
    assert(view_items(items@) =~= Seq::new(sv.len(), |j: int| ValueSpec::Text(sv[j])));
    Value::Array(items)
}

fn push_entry(pairs: &mut Vec<(u64, Value)>, k: u64, v: Value)
    ensures
        view_entries(final(pairs)@) == view_entries(old(pairs)@).push((k, v@)),
{
    proof {
        lemma_view_entries_push(pairs@, (k, v));
    }
    pairs.push((k, v));
}

/// Appends the entries of a body (from key 5 on).
fn extra_fields(body: &AppBody, pairs: &mut Vec<(u64, Value)>)
    ensures
        view_entries(final(pairs)@) == view_entries(old(pairs)@) + body_entries(body@),
{
    let ghost start = view_entries(pairs@);
    match body {
        AppBody::Text { text } => push_entry(pairs, 5, text_value(text)),
        AppBody::Attachment { enc_file, meta, fetch_token } => {
            push_entry(pairs, 5, bytes_value(enc_file.as_slice()));
            push_entry(pairs, 6, encode_meta(meta));
            match fetch_token {
                Some(token) => push_entry(pairs, 7, bytes_value(token)),
                None => {},
            }
        },
        AppBody::Reaction { target, emoji } => {
            push_entry(pairs, 5, Value::Uint(*target));
            push_entry(pairs, 6, text_value(emoji));
        },
        AppBody::Delete { target } => push_entry(pairs, 5, Value::Uint(*target)),
        AppBody::ProtocolAck { upto } => push_entry(pairs, 5, Value::Uint(*upto)),
        AppBody::Capability { contact_capability } => push_entry(
            pairs,
            5,
            bytes_value(contact_capability),
        ),
        AppBody::BindingGossip { identity_id, seq, server_id } => {
            push_entry(pairs, 5, bytes_value(identity_id));
            push_entry(pairs, 6, Value::Uint(*seq));
            push_entry(pairs, 7, bytes_value(server_id));
        },
        AppBody::Disappear { seconds } => push_entry(pairs, 5, Value::Uint(*seconds)),
        AppBody::CallInvite { call_id, sdp, dtls_fp, ice, expires_at } => {
            push_entry(pairs, 5, bytes_value(call_id));
            push_entry(pairs, 6, text_value(sdp));
            push_entry(pairs, 7, text_value(dtls_fp));
            push_entry(pairs, 8, ice_value(ice));
            push_entry(pairs, 9, Value::Uint(*expires_at));
        },
        AppBody::CallRinging { call_id } => push_entry(pairs, 5, bytes_value(call_id)),
        AppBody::CallAnswer { call_id, sdp, dtls_fp, ice } => {
            push_entry(pairs, 5, bytes_value(call_id));
            push_entry(pairs, 6, text_value(sdp));
            push_entry(pairs, 7, text_value(dtls_fp));
            push_entry(pairs, 8, ice_value(ice));
        },
        AppBody::CallIce { call_id, ice } => {
            push_entry(pairs, 5, bytes_value(call_id));
            push_entry(pairs, 6, ice_value(ice));
        },
        AppBody::CallReject { call_id } => push_entry(pairs, 5, bytes_value(call_id)),
        AppBody::CallCancel { call_id } => push_entry(pairs, 5, bytes_value(call_id)),
        AppBody::CallEnd { call_id } => push_entry(pairs, 5, bytes_value(call_id)),
        AppBody::Unknown { .. } => {},
    }
    assert(view_entries(pairs@) =~= start + body_entries(body@));
}

/// Writes a message. A body of unknown type cannot be written; a known one
/// must pass the size and relay-only rules.
pub fn encode(msg: &AppMessage) -> (r: Result<Vec<u8>, CoreError>)
    ensures
        match encoded(msg@) {
            Ok(b) => r matches Ok(out) && out@ == b,
            Err(f) => r matches Err(e) && reports(e, f),
        },
        body_shape(msg@.body),
        r is Ok ==> well_formed(message_value(msg@)),
{
    proof {
        lemma_body_shape(&msg.body);
    }
    if let AppBody::Unknown { .. } = &msg.body {
        return Err(wire("cannot encode unknown msg_type"));
    }
    validate(msg)?;
    let mut pairs: Vec<(u64, Value)> = Vec::new();
    push_entry(&mut pairs, 0, Value::Uint(PROTOCOL_VERSION));
    push_entry(&mut pairs, 1, Value::Text(String::from_str(msg.msg_type())));
    push_entry(&mut pairs, 2, Value::Uint(msg.header.conv_seq));
    push_entry(&mut pairs, 3, Value::Uint(msg.header.sent_at));
    if let Some(reply_to) = msg.header.reply_to {
        push_entry(&mut pairs, 4, Value::Uint(reply_to));
    }
    proof {
        assert(view_entries(Seq::<(u64, Value)>::empty()) == Seq::<(u64, ValueSpec)>::empty());
        assert(view_entries(pairs@) =~= header_entries(msg.header, wire_name(msg@.body)));
    }
    extra_fields(&msg.body, &mut pairs);
    let v = Value::Dict(pairs);
    assert(v@ == message_value(msg@));
    Ok(crate::cbor::encode(&v))
}

/// Writes a text message.
pub fn encode_text(conv_seq: u64, sent_at: u64, text: &str) -> (r: Result<Vec<u8>, CoreError>)
    ensures
        match encoded(
            MessageView {
                header: AppHeader { conv_seq, sent_at, reply_to: None },
                body: BodyView::Text(text@),
            },
        ) {
            Ok(b) => r matches Ok(out) && out@ == b,
            Err(f) => r matches Err(e) && reports(e, f),
        },
        body_shape(BodyView::Text(text@)),
        r is Ok ==> well_formed(
            message_value(
                MessageView {
                    header: AppHeader { conv_seq, sent_at, reply_to: None },
                    body: BodyView::Text(text@),
                },
            ),
        ),
{
    encode(&AppMessage::text(conv_seq, sent_at, String::from_str(text)))
}

pub open spec fn uint_of(v: Option<ValueSpec>) -> Option<u64> {
    match v {
        Some(ValueSpec::Uint(n)) => Some(n),
        _ => None,
    }
}

pub open spec fn text_of(v: Option<ValueSpec>) -> Option<Seq<char>> {
    match v {
        Some(ValueSpec::Text(t)) => Some(t),
        _ => None,
    }
}

pub open spec fn bytes_of(v: Option<ValueSpec>) -> Option<Seq<u8>> {
    match v {
        Some(ValueSpec::Bytes(b)) => Some(b),
        _ => None,
    }
}

/// A byte string of exactly `n` bytes.
pub open spec fn fixed_of(v: Option<ValueSpec>, n: nat) -> Option<Seq<u8>> {
    match bytes_of(v) {
        Some(b) => if b.len() == n {
            Some(b)
        } else {
            None
        },
        None => None,
    }
}

/// An array of text strings.
pub open spec fn texts_of(v: Option<ValueSpec>) -> Option<Seq<Seq<char>>> {
    match v {
        Some(ValueSpec::Array(items)) => if forall|i: int|
            0 <= i < items.len() ==> #[trigger] items[i] is Text {
            Some(Seq::new(items.len(), |i: int| items[i]->Text_0))
        } else {
            None
        },
        _ => None,
    }
}

pub open spec fn meta_of(v: Option<ValueSpec>) -> Option<MetaView> {
    match v {
        Some(ValueSpec::Dict(m)) => match (
            text_of(lookup(m, 0)),
            text_of(lookup(m, 1)),
            uint_of(lookup(m, 2)),
        ) {
            (Some(name), Some(mime), Some(size)) => Some(MetaView { name, mime, size }),
            _ => None,
        },
        _ => None,
    }
}

pub open spec fn call_id_of(m: Seq<(u64, ValueSpec)>, k: u64) -> Option<Seq<u8>> {
    fixed_of(lookup(m, k), CALL_ID_LEN as nat)
}

/// The body a map of type `t` carries; `None` when a field is missing or
/// malformed. A type this build does not know gives [`BodyView::Unknown`].
pub open spec fn body_from(t: Seq<char>, m: Seq<(u64, ValueSpec)>) -> Option<BodyView> {
    let f5 = lookup(m, 5);
    let f6 = lookup(m, 6);
    let f7 = lookup(m, 7);
    let f8 = lookup(m, 8);
    let f9 = lookup(m, 9);
    if t == "text"@ {
        match text_of(f5) {
            Some(x) => Some(BodyView::Text(x)),
            None => None,
        }
    } else if t == "attachment"@ {
        match (bytes_of(f5), meta_of(f6)) {
            (Some(f), Some(meta)) => match f7 {
                None => Some(BodyView::Attachment(f, meta, None)),
                Some(_) => match fixed_of(f7, KEY_LEN as nat) {
                    Some(tok) => Some(BodyView::Attachment(f, meta, Some(tok))),
                    None => None,
                },
            },
            _ => None,
        }
    } else if t == "reaction"@ {
        match (uint_of(f5), text_of(f6)) {
            (Some(target), Some(e)) => Some(BodyView::Reaction(target, e)),
            _ => None,
        }
    } else if t == "delete"@ {
        match uint_of(f5) {
            Some(x) => Some(BodyView::Delete(x)),
            None => None,
        }
    } else if t == "protocol_ack"@ {
        match uint_of(f5) {
            Some(x) => Some(BodyView::ProtocolAck(x)),
            None => None,
        }
    } else if t == "capability"@ {
        match fixed_of(f5, KEY_LEN as nat) {
            Some(x) => Some(BodyView::Capability(x)),
            None => None,
        }
    } else if t == "binding_gossip"@ {
        match (fixed_of(f5, KEY_LEN as nat), uint_of(f6), fixed_of(f7, KEY_LEN as nat)) {
            (Some(id), Some(seq), Some(sv)) => Some(BodyView::BindingGossip(id, seq, sv)),
            _ => None,
        }
    } else if t == "disappear"@ {
        match uint_of(f5) {
            Some(x) => Some(BodyView::Disappear(x)),
            None => None,
        }
    } else if t == "call_invite"@ {
        match (call_id_of(m, 5), text_of(f6), text_of(f7), texts_of(f8), uint_of(f9)) {
            (Some(c), Some(sdp), Some(fp), Some(ice), Some(exp)) => Some(
                BodyView::CallInvite(c, sdp, fp, ice, exp),
            ),
            _ => None,
        }
    } else if t == "call_ringing"@ {
        match call_id_of(m, 5) {
            Some(c) => Some(BodyView::CallRinging(c)),
            None => None,
        }
    } else if t == "call_answer"@ {
        match (call_id_of(m, 5), text_of(f6), text_of(f7), texts_of(f8)) {
            (Some(c), Some(sdp), Some(fp), Some(ice)) => Some(
                BodyView::CallAnswer(c, sdp, fp, ice),
            ),
            _ => None,
        }
    } else if t == "call_ice"@ {
        match (call_id_of(m, 5), texts_of(f6)) {
            (Some(c), Some(ice)) => Some(BodyView::CallIce(c, ice)),
            _ => None,
        }
    } else if t == "call_reject"@ {
        match call_id_of(m, 5) {
            Some(c) => Some(BodyView::CallReject(c)),
            None => None,
        }
    } else if t == "call_cancel"@ {
        match call_id_of(m, 5) {
            Some(c) => Some(BodyView::CallCancel(c)),
            None => None,
        }
    } else if t == "call_end"@ {
        match call_id_of(m, 5) {
            Some(c) => Some(BodyView::CallEnd(c)),
            None => None,
        }
    } else {
        Some(BodyView::Unknown(t))
    }
}

/// The optional reply field: absent, or an unsigned integer.
pub open spec fn reply_of(m: Seq<(u64, ValueSpec)>) -> Option<Option<u64>> {
    match lookup(m, 4) {
        None => Some(None),
        Some(v) => match uint_of(Some(v)) {
            Some(r) => Some(Some(r)),
            None => None,
        },
    }
}

/// The message a map describes.
pub open spec fn from_entries(m: Seq<(u64, ValueSpec)>) -> Result<MessageView, Fault> {
    match uint_of(lookup(m, 0)) {
        None => Err(Fault::Wire),
        Some(ver) => if ver != PROTOCOL_VERSION {
            Err(Fault::UnknownVersion(ver))
        } else {
            match (text_of(lookup(m, 1)), uint_of(lookup(m, 2)), uint_of(lookup(m, 3)), reply_of(m)) {
                (Some(t), Some(cs), Some(sa), Some(r)) => match body_from(t, m) {
                    None => Err(Fault::Wire),
                    Some(body) => if !(body is Unknown) && body_fault(body) is Some {
                        Err(body_fault(body)->0)
                    } else {
                        Ok(
                            MessageView {
                                header: AppHeader { conv_seq: cs, sent_at: sa, reply_to: r },
                                body,
                            },
                        )
                    },
                },
                _ => Err(Fault::Wire),
            }
        },
    }
}

/// What [`decode`] gives for some bytes: they must hold exactly one CBOR
/// map describing a message.
pub open spec fn decoded(b: Seq<u8>) -> Result<MessageView, Fault> {
    match parse(b, 0) {
        Some((ValueSpec::Dict(m), n)) => if n == b.len() {
            from_entries(m)
        } else {
            Err(Fault::Wire)
        },
        _ => Err(Fault::Wire),
    }
}

fn get_uint(m: &[(u64, Value)], k: u64) -> (r: Option<u64>)
    ensures
        r == uint_of(lookup(view_entries(m@), k)),
{
    match map_get(m, k) {
        Some(Value::Uint(n)) => Some(*n),
        _ => None,
    }
}

fn get_text(m: &[(u64, Value)], k: u64) -> (r: Option<String>)
    ensures
        match r {
            Some(s) => text_of(lookup(view_entries(m@), k)) == Some(s@),
            None => text_of(lookup(view_entries(m@), k)) is None,
        },
{
    match map_get(m, k) {
        Some(Value::Text(s)) => Some(s.clone()),
        _ => None,
    }
}

fn get_bytes(m: &[(u64, Value)], k: u64) -> (r: Option<Vec<u8>>)
    ensures
        match r {
            Some(b) => bytes_of(lookup(view_entries(m@), k)) == Some(b@),
            None => bytes_of(lookup(view_entries(m@), k)) is None,
        },
{
    match map_get(m, k) {
        Some(Value::Bytes(b)) => Some(array_to_vec(b.as_slice())),
        _ => None,
    }
}

fn get_key(m: &[(u64, Value)], k: u64) -> (r: Option<[u8; KEY_LEN]>)
    ensures
        match r {
            Some(a) => fixed_of(lookup(view_entries(m@), k), KEY_LEN as nat) == Some(a@),
            None => fixed_of(lookup(view_entries(m@), k), KEY_LEN as nat) is None,
        },
{
    match map_get(m, k) {
        Some(Value::Bytes(b)) => copy_key(b.as_slice()),
        _ => None,
    }
}

fn get_call_id(m: &[(u64, Value)], k: u64) -> (r: Option<[u8; CALL_ID_LEN]>)
    ensures
        match r {
            Some(a) => call_id_of(view_entries(m@), k) == Some(a@),
            None => call_id_of(view_entries(m@), k) is None,
        },
{
    match map_get(m, k) {
        Some(Value::Bytes(b)) => copy_call_id(b.as_slice()),
        _ => None,
    }
}

fn get_ice(m: &[(u64, Value)], k: u64) -> (r: Option<Vec<String>>)
    ensures
        match r {
            Some(v) => texts_of(lookup(view_entries(m@), k)) == Some(strings_view(v@)),
            None => texts_of(lookup(view_entries(m@), k)) is None,
        },
{
    let items = match map_get(m, k) {
        Some(Value::Array(items)) => items,
        _ => {
            return None;
        },
    };
    proof {
        lemma_view_items_len(items@);
    }
    let ghost vs = view_items(items@);
    assert(lookup(view_entries(m@), k) == Some(ValueSpec::Array(vs)));
    let mut out: Vec<String> = Vec::new();
    let mut i: usize = 0;
    while i < items.len()
        invariant
            i <= items@.len(),
            vs.len() == items@.len(),
            lookup(view_entries(m@), k) == Some(ValueSpec::Array(vs)),
            forall|j: int| 0 <= j < items@.len() ==> #[trigger] vs[j] == items@[j]@,
            out@.len() == i,
            forall|j: int| 0 <= j < i ==> #[trigger] vs[j] is Text && vs[j]->Text_0 == out@[j]@,
        decreases items@.len() - i,
    {
        match &items[i] {
            Value::Text(s) => {
                out.push(s.clone());
            },
            _ => {
                assert(!(vs[i as int] is Text));
                assert(lookup(view_entries(m@), k) == Some(ValueSpec::Array(vs)));
                assert(texts_of(Some(ValueSpec::Array(vs))) is None);
                return None;
            },
        }
        i = i + 1;
    }
    assert(strings_view(out@) =~= Seq::new(vs.len(), |j: int| vs[j]->Text_0));
    Some(out)
}

fn get_meta(m: &[(u64, Value)], k: u64) -> (r: Option<FileMeta>)
    ensures
        match r {
            Some(f) => meta_of(lookup(view_entries(m@), k)) == Some(f@),
            None => meta_of(lookup(view_entries(m@), k)) is None,
        },
{
    let inner = match map_get(m, k) {
        Some(Value::Dict(inner)) => inner,
        _ => {
            return None;
        },
    };
    match (get_text(inner.as_slice(), 0), get_text(inner.as_slice(), 1), get_uint(inner.as_slice(), 2)) {
        (Some(name), Some(mime), Some(size)) => Some(FileMeta { name, mime, size }),
        _ => None,
    }
}

/// Whether `s` holds exactly the text `lit`.
fn name_is(s: &String, lit: &str) -> (b: bool)
    ensures
        b == (s@ == lit@),
{
    let t = String::from_str(lit);
    *s == t
}

/// The body a map of type `msg_type` carries.
fn parse_body(msg_type: &String, m: &[(u64, Value)]) -> (r: Option<AppBody>)
    ensures
        match r {
            Some(b) => body_from(msg_type@, view_entries(m@)) == Some(b@),
            None => body_from(msg_type@, view_entries(m@)) is None,
        },
{
    let ghost e = view_entries(m@);
    if name_is(msg_type, "text") {
        match get_text(m, 5) {
            Some(text) => Some(AppBody::Text { text }),
            None => None,
        }
    } else if name_is(msg_type, "attachment") {
        match (get_bytes(m, 5), get_meta(m, 6)) {
            (Some(enc_file), Some(meta)) => match map_get(m, 7) {
                None => Some(AppBody::Attachment { enc_file, meta, fetch_token: None }),
                Some(_) => match get_key(m, 7) {
                    Some(t) => Some(AppBody::Attachment { enc_file, meta, fetch_token: Some(t) }),
                    None => None,
                },
            },
            _ => None,
        }
    } else if name_is(msg_type, "reaction") {
        match (get_uint(m, 5), get_text(m, 6)) {
            (Some(target), Some(emoji)) => Some(AppBody::Reaction { target, emoji }),
            _ => None,
        }
    } else if name_is(msg_type, "delete") {
        match get_uint(m, 5) {
            Some(target) => Some(AppBody::Delete { target }),
            None => None,
        }
    } else if name_is(msg_type, "protocol_ack") {
        match get_uint(m, 5) {
            Some(upto) => Some(AppBody::ProtocolAck { upto }),
            None => None,
        }
    } else if name_is(msg_type, "capability") {
        match get_key(m, 5) {
            Some(contact_capability) => Some(AppBody::Capability { contact_capability }),
            None => None,
        }
    } else if name_is(msg_type, "binding_gossip") {
        match (get_key(m, 5), get_uint(m, 6), get_key(m, 7)) {
            (Some(identity_id), Some(seq), Some(server_id)) => Some(
                AppBody::BindingGossip { identity_id, seq, server_id },
            ),
            _ => None,
        }
    } else if name_is(msg_type, "disappear") {
        match get_uint(m, 5) {
            Some(seconds) => Some(AppBody::Disappear { seconds }),
            None => None,
        }
    } else if name_is(msg_type, "call_invite") {
        match (get_call_id(m, 5), get_text(m, 6), get_text(m, 7), get_ice(m, 8), get_uint(m, 9)) {
            (Some(call_id), Some(sdp), Some(dtls_fp), Some(ice), Some(expires_at)) => Some(
                AppBody::CallInvite { call_id, sdp, dtls_fp, ice, expires_at },
            ),
            _ => None,
        }
    } else if name_is(msg_type, "call_ringing") {
        match get_call_id(m, 5) {
            Some(call_id) => Some(AppBody::CallRinging { call_id }),
            None => None,
        }
    } else if name_is(msg_type, "call_answer") {
        match (get_call_id(m, 5), get_text(m, 6), get_text(m, 7), get_ice(m, 8)) {
            (Some(call_id), Some(sdp), Some(dtls_fp), Some(ice)) => Some(
                AppBody::CallAnswer { call_id, sdp, dtls_fp, ice },
            ),
            _ => None,
        }
    } else if name_is(msg_type, "call_ice") {
        match (get_call_id(m, 5), get_ice(m, 6)) {
            (Some(call_id), Some(ice)) => Some(AppBody::CallIce { call_id, ice }),
            _ => None,
        }
    } else if name_is(msg_type, "call_reject") {
        match get_call_id(m, 5) {
            Some(call_id) => Some(AppBody::CallReject { call_id }),
            None => None,
        }
    } else if name_is(msg_type, "call_cancel") {
        match get_call_id(m, 5) {
            Some(call_id) => Some(AppBody::CallCancel { call_id }),
            None => None,
        }
    } else if name_is(msg_type, "call_end") {
        match get_call_id(m, 5) {
            Some(call_id) => Some(AppBody::CallEnd { call_id }),
            None => None,
        }
    } else {
        Some(AppBody::Unknown { msg_type: msg_type.clone() })
    }
}

/// Reads a message. Bytes that are not exactly one CBOR map of the layout
/// above are refused, as is another protocol version; a known body must pass
/// the same rules as on writing.
pub fn decode(bytes: &[u8]) -> (r: Result<AppMessage, CoreError>)
    ensures
        match decoded(bytes@) {
            Ok(mv) => r matches Ok(m) && m@ == mv,
            Err(f) => r matches Err(e) && reports(e, f),
        },
{
    let v = match crate::cbor::decode(bytes) {
        Some(v) => v,
        None => {
            return Err(wire("malformed cbor"));
        },
    };
    let m = match v {
        Value::Dict(m) => m,
        _ => {
            return Err(wire("app message must be a map"));
        },
    };
    let ghost e = view_entries(m@);
    let version = match get_uint(m.as_slice(), 0) {
        Some(n) => n,
        None => {
            return Err(wire("version"));
        },
    };
    if version != PROTOCOL_VERSION {
        return Err(CoreError::UnknownVersion(version));
    }
    let msg_type = match get_text(m.as_slice(), 1) {
        Some(t) => t,
        None => {
            return Err(wire("msg_type"));
        },
    };
    let conv_seq = match get_uint(m.as_slice(), 2) {
        Some(n) => n,
        None => {
            return Err(wire("conv_seq"));
        },
    };
    let sent_at = match get_uint(m.as_slice(), 3) {
        Some(n) => n,
        None => {
            return Err(wire("sent_at"));
        },
    };
    let reply_to = match map_get(m.as_slice(), 4) {
        None => None,
        Some(Value::Uint(n)) => Some(*n),
        Some(_) => {
            return Err(wire("reply_to"));
        },
    };
    let body = match parse_body(&msg_type, m.as_slice()) {
        Some(b) => b,
        None => {
            return Err(wire("body"));
        },
    };
    let msg = AppMessage { header: AppHeader { conv_seq, sent_at, reply_to }, body };
    if let AppBody::Unknown { .. } = &msg.body {
    } else {
        validate(&msg)?;
    }
    Ok(msg)
}

/// Reads a text message: its conversation sequence number and text.
pub fn decode_text(bytes: &[u8]) -> (r: Result<(u64, String), CoreError>)
    ensures
        match decoded(bytes@) {
            Ok(mv) => match mv.body {
                BodyView::Text(t) => r matches Ok((cs, s)) && cs == mv.header.conv_seq && s@ == t,
                _ => r matches Err(e) && e is Wire,
            },
            Err(f) => r matches Err(e) && reports(e, f),
        },
{
    let msg = decode(bytes)?;
    match msg.body {
        AppBody::Text { text } => Ok((msg.header.conv_seq, text)),
        _ => Err(wire("expected text")),
    }
}

/// Call ids and keys of a body have their fixed lengths, as every body
/// built from [`AppBody`] does.
pub open spec fn body_shape(b: BodyView) -> bool {
    let c = CALL_ID_LEN as nat;
    let k = KEY_LEN as nat;
    match b {
        BodyView::Attachment(_, _, tok) => tok matches Some(t) ==> t.len() == k,
        BodyView::Capability(x) => x.len() == k,
        BodyView::BindingGossip(id, _, sv) => id.len() == k && sv.len() == k,
        BodyView::CallInvite(id, _, _, _, _) => id.len() == c,
        BodyView::CallRinging(id) => id.len() == c,
        BodyView::CallAnswer(id, _, _, _) => id.len() == c,
        BodyView::CallIce(id, _) => id.len() == c,
        BodyView::CallReject(id) => id.len() == c,
        BodyView::CallCancel(id) => id.len() == c,
        BodyView::CallEnd(id) => id.len() == c,
        _ => true,
    }
}

/// Every [`AppBody`] has ids and keys of their fixed lengths.
pub proof fn lemma_body_shape(b: &AppBody)
    ensures
        body_shape(b@),
{
    broadcast use vstd::array::array_len_matches_n;

    match b {
        AppBody::Attachment { fetch_token, .. } => {
            if let Some(t) = fetch_token {
                assert(t@.len() == KEY_LEN);
            }
        },
        _ => {},
    }
}

proof fn lemma_lookup_append(a: Seq<(u64, ValueSpec)>, b: Seq<(u64, ValueSpec)>, k: u64)
    ensures
        lookup(a + b, k) == match lookup(a, k) {
            Some(v) => Some(v),
            None => lookup(b, k),
        },
    decreases a.len(),
{
    if a.len() == 0 {
        assert(a + b =~= b);
    } else {
        assert((a + b).drop_first() =~= a.drop_first() + b);
        assert((a + b)[0] == a[0]);
        lemma_lookup_append(a.drop_first(), b, k);
    }
}

proof fn lemma_lookup_absent(a: Seq<(u64, ValueSpec)>, k: u64)
    requires
        forall|i: int| 0 <= i < a.len() ==> (#[trigger] a[i]).0 != k,
    ensures
        lookup(a, k) is None,
    decreases a.len(),
{
    if a.len() > 0 {
        assert forall|i: int| 0 <= i < a.drop_first().len() implies (#[trigger] a.drop_first()[
            i]).0 != k by {
            assert(a.drop_first()[i] == a[i + 1]);
        }
        lemma_lookup_absent(a.drop_first(), k);
    }
}

proof fn lemma_texts_roundtrip(ice: Seq<Seq<char>>)
    ensures
        texts_of(Some(texts_value(ice))) == Some(ice),
{
    let items = Seq::new(ice.len(), |i: int| ValueSpec::Text(ice[i]));
    assert(forall|i: int| 0 <= i < items.len() ==> #[trigger] items[i] is Text);
    assert(Seq::new(items.len(), |i: int| items[i]->Text_0) =~= ice);
}

proof fn lemma_meta_roundtrip(m: MetaView)
    ensures
        meta_of(Some(meta_value(m))) == Some(m),
{
    reveal_with_fuel(lookup, 4);
}

proof fn lemma_wire_names()
    ensures
        "text"@.len() == 4,
        "attachment"@.len() == 10,
        "reaction"@.len() == 8,
        "delete"@.len() == 6,
        "protocol_ack"@.len() == 12,
        "capability"@.len() == 10,
        "binding_gossip"@.len() == 14,
        "disappear"@.len() == 9,
        "call_invite"@.len() == 11,
        "call_ringing"@.len() == 12,
        "call_answer"@.len() == 11,
        "call_ice"@.len() == 8,
        "call_reject"@.len() == 11,
        "call_cancel"@.len() == 11,
        "call_end"@.len() == 8,
        "text"@[0] == 't',
        "attachment"@[0] == 'a',
        "reaction"@[0] == 'r',
        "delete"@[0] == 'd',
        "protocol_ack"@[0] == 'p',
        "capability"@[0] == 'c',
        "binding_gossip"@[0] == 'b',
        "disappear"@[0] == 'd',
        "call_invite"@[0] == 'c',
        "call_invite"@[5] == 'i',
        "call_ringing"@[0] == 'c',
        "call_ringing"@[5] == 'r',
        "call_answer"@[0] == 'c',
        "call_answer"@[5] == 'a',
        "call_ice"@[0] == 'c',
        "call_ice"@[5] == 'i',
        "call_reject"@[0] == 'c',
        "call_reject"@[5] == 'r',
        "call_cancel"@[0] == 'c',
        "call_cancel"@[5] == 'c',
        "call_end"@[0] == 'c',
        "call_end"@[5] == 'e',
{
    broadcast use vstd::string::group_string_axioms;

    reveal_strlit("text");
    reveal_strlit("attachment");
    reveal_strlit("reaction");
    reveal_strlit("delete");
    reveal_strlit("protocol_ack");
    reveal_strlit("capability");
    reveal_strlit("binding_gossip");
    reveal_strlit("disappear");
    reveal_strlit("call_invite");
    reveal_strlit("call_ringing");
    reveal_strlit("call_answer");
    reveal_strlit("call_ice");
    reveal_strlit("call_reject");
    reveal_strlit("call_cancel");
    reveal_strlit("call_end");
    assert("text"@.len() == 4);
    assert("attachment"@.len() == 10);
    assert("reaction"@.len() == 8);
    assert("delete"@.len() == 6);
    assert("protocol_ack"@.len() == 12);
    assert("capability"@.len() == 10);
    assert("binding_gossip"@.len() == 14);
    assert("disappear"@.len() == 9);
    assert("call_invite"@.len() == 11);
    assert("call_ringing"@.len() == 12);
    assert("call_answer"@.len() == 11);
    assert("call_ice"@.len() == 8);
    assert("call_reject"@.len() == 11);
    assert("call_cancel"@.len() == 11);
    assert("call_end"@.len() == 8);
}

proof fn lemma_texts_nesting(ice: Seq<Seq<char>>)
    ensures
        nesting(texts_value(ice)) <= 1,
{
    let items = Seq::new(ice.len(), |i: int| ValueSpec::Text(ice[i]));
    assert forall|i: int| 0 <= i < items.len() implies nesting(#[trigger] items[i]) <= 0 by {}
    lemma_nesting_items_bound(items, 0);
}

proof fn lemma_meta_nesting(m: MetaView)
    ensures
        nesting(meta_value(m)) <= 1,
{
    let e = seq![
        (0u64, ValueSpec::Text(m.name)),
        (1u64, ValueSpec::Text(m.mime)),
        (2u64, ValueSpec::Uint(m.size)),
    ];
    assert forall|i: int| 0 <= i < e.len() implies nesting(#[trigger] e[i].1) <= 0 by {}
    lemma_nesting_entries_bound(e, 0);
}

/// A message map nests at most two deep (the file meta and the candidates).
proof fn lemma_message_nesting(m: MessageView)
    ensures
        nesting(message_value(m)) <= 2,
{
    let h = header_entries(m.header, wire_name(m.body));
    let b = body_entries(m.body);
    match m.body {
        BodyView::Attachment(_, meta, _) => lemma_meta_nesting(meta),
        BodyView::CallInvite(_, _, _, ice, _) => lemma_texts_nesting(ice),
        BodyView::CallAnswer(_, _, _, ice) => lemma_texts_nesting(ice),
        BodyView::CallIce(_, ice) => lemma_texts_nesting(ice),
        _ => {},
    }
    assert forall|i: int| 0 <= i < (h + b).len() implies nesting(#[trigger] (h + b)[i].1) <= 1 by {
        if i >= h.len() {
            assert((h + b)[i] == b[i - h.len()]);
        }
    }
    lemma_nesting_entries_bound(h + b, 1);
}

/// A known body reads back from any map that agrees with its entries on the
/// body keys.
proof fn lemma_body_roundtrip(b: BodyView, e: Seq<(u64, ValueSpec)>)
    requires
        !(b is Unknown),
        body_shape(b),
        forall|k: u64| k >= 5 ==> #[trigger] lookup(e, k) == lookup(body_entries(b), k),
    ensures
        body_from(wire_name(b), e) == Some(b),
{
    lemma_wire_names();
    reveal_with_fuel(lookup, 7);
    match b {
        BodyView::Attachment(_, meta, _) => lemma_meta_roundtrip(meta),
        BodyView::CallInvite(_, _, _, ice, _) => lemma_texts_roundtrip(ice),
        BodyView::CallAnswer(_, _, _, ice) => lemma_texts_roundtrip(ice),
        BodyView::CallIce(_, ice) => lemma_texts_roundtrip(ice),
        _ => {},
    }
    assert(lookup(e, 5) == lookup(body_entries(b), 5));
    assert(lookup(e, 6) == lookup(body_entries(b), 6));
    assert(lookup(e, 7) == lookup(body_entries(b), 7));
    assert(lookup(e, 8) == lookup(body_entries(b), 8));
    assert(lookup(e, 9) == lookup(body_entries(b), 9));
}

/// Reading back what [`encode`] wrote gives the same message: header, type
/// and every field of the body.
pub proof fn law_message_roundtrip(m: MessageView)
    requires
        encoded(m) is Ok,
        body_shape(m.body),
        well_formed(message_value(m)),
    ensures
        decoded(encoded(m)->Ok_0) == Ok::<MessageView, Fault>(m),
{
    let h = header_entries(m.header, wire_name(m.body));
    let b = body_entries(m.body);
    let e = h + b;
    lemma_message_nesting(m);
    law_decode_encode(message_value(m));
    reveal_with_fuel(lookup, 6);
    assert forall|k: u64| k >= 5 implies #[trigger] lookup(e, k) == lookup(b, k) by {
        lemma_lookup_append(h, b, k);
        lemma_lookup_absent(h, k);
    }
    assert forall|k: u64| k < 5 implies #[trigger] lookup(e, k) == lookup(h, k) by {
        lemma_lookup_append(h, b, k);
        lemma_lookup_absent(b, k);
    }
    assert(lookup(e, 0) == lookup(h, 0));
    assert(lookup(e, 1) == lookup(h, 1));
    assert(lookup(e, 2) == lookup(h, 2));
    assert(lookup(e, 3) == lookup(h, 3));
    assert(lookup(e, 4) == lookup(h, 4));
    lemma_body_roundtrip(m.body, e);
}

} // verus!
