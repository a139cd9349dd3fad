//! Group join requests as the shell passes them around: the prefix
//! `nemo-j:1:` and the hexadecimal of a CBOR map of the joiner's ids and
//! keys. The invitee's proof travels in its own wire encoding.

use vstd::prelude::*;
use crate::cbor::{Value, ValueSpec, enc, parse, lookup, map_get, view_entries, well_formed, nesting,
    law_decode_encode, lemma_nesting_entries_bound};
use crate::ffi::FfiError;
use crate::hex::{hex_of, hex_decode, hex_bytes, from_hex_chars, law_hex_roundtrip};
use crate::home::push_bytes_entry;
use crate::ice::{chars_of, chars_eq};
use crate::ids::{KEY_LEN, array_to_vec, copy_key};
use crate::tor::{find_char, first_index};

verus! {

/// A request to join a group, made by the invitee for the group's host.
#[derive(Clone, Debug, PartialEq, Eq)]
pub struct JoinRequest {
    pub group_id: [u8; KEY_LEN],
    pub pending_id: [u8; KEY_LEN],
    pub key_package: Vec<u8>,
    pub signing_pk: [u8; KEY_LEN],
    pub cap: [u8; KEY_LEN],
    pub hpke: [u8; KEY_LEN],
    pub credential_id: [u8; KEY_LEN],
    pub nonce: [u8; KEY_LEN],
    /// The invitee's signed proof, in its wire encoding.
    pub proof: Option<Vec<u8>>,
    pub invitee_binding: Option<[u8; KEY_LEN]>,
}

pub struct JoinView {
    pub group_id: Seq<u8>,
    pub pending_id: Seq<u8>,
    pub key_package: Seq<u8>,
    pub signing_pk: Seq<u8>,
    pub cap: Seq<u8>,
    pub hpke: Seq<u8>,
    pub credential_id: Seq<u8>,
    pub nonce: Seq<u8>,
    pub proof: Option<Seq<u8>>,
    pub invitee_binding: Option<Seq<u8>>,
}

impl View for JoinRequest {
    type V = JoinView;

    open spec fn view(&self) -> JoinView {
        JoinView {
            group_id: self.group_id@,
            pending_id: self.pending_id@,
            key_package: self.key_package@,
            signing_pk: self.signing_pk@,
            cap: self.cap@,
            hpke: self.hpke@,
            credential_id: self.credential_id@,
            nonce: self.nonce@,
            proof: match self.proof {
                Some(p) => Some(p@),
                None => None,
            },
            invitee_binding: match self.invitee_binding {
                Some(b) => Some(b@),
                None => None,
            },
        }
    }
}

pub open spec fn join_prefix() -> Seq<char> {
    seq!['n', 'e', 'm', 'o', '-', 'j', ':', '1', ':']
}

/// The CBOR map of a join request, keyed 0 to 9; the proof and the
/// invitee's binding only when present.
pub open spec fn join_entries(j: JoinView) -> Seq<(u64, ValueSpec)> {
    seq![
        (0u64, ValueSpec::Bytes(j.group_id)),
        (1u64, ValueSpec::Bytes(j.pending_id)),
        (2u64, ValueSpec::Bytes(j.key_package)),
        (3u64, ValueSpec::Bytes(j.signing_pk)),
        (4u64, ValueSpec::Bytes(j.cap)),
        (5u64, ValueSpec::Bytes(j.hpke)),
        (6u64, ValueSpec::Bytes(j.credential_id)),
        (7u64, ValueSpec::Bytes(j.nonce)),
    ] + match j.proof {
        Some(p) => seq![(8u64, ValueSpec::Bytes(p))],
        None => seq![],
    } + match j.invitee_binding {
        Some(b) => seq![(9u64, ValueSpec::Bytes(b))],
        None => seq![],
    }
}

/// The text form of a join request.
pub open spec fn join_uri_of(j: JoinView) -> Seq<char> {
    join_prefix() + hex_of(enc(ValueSpec::Dict(join_entries(j))))
}

pub open spec fn req_key(m: Seq<(u64, ValueSpec)>, k: u64) -> Option<Seq<u8>> {
    match lookup(m, k) {
        Some(ValueSpec::Bytes(b)) => if b.len() == KEY_LEN {
            Some(b)
        } else {
            None
        },
        _ => None,
    }
}

/// The fields of a join request map. Every key field needs exactly
/// [`KEY_LEN`] bytes; a missing nonce reads as zeros; the proof and the
/// binding are optional.
pub open spec fn join_from(m: Seq<(u64, ValueSpec)>) -> Option<JoinView> {
    let nonce = match lookup(m, 7) {
        None => Some(Seq::new(KEY_LEN as nat, |i: int| 0u8)),
        Some(ValueSpec::Bytes(b)) => if b.len() == KEY_LEN {
            Some(b)
        } else {
            None
        },
        Some(_) => None,
    };
    let proof = match lookup(m, 8) {
        None => Some(None),
        Some(ValueSpec::Bytes(b)) => Some(Some(b)),
        Some(_) => None,
    };
    let binding = match lookup(m, 9) {
        None => Some(None),
        Some(ValueSpec::Bytes(b)) => if b.len() == KEY_LEN {
            Some(Some(b))
        } else {
            None
        },
        Some(_) => None,
    };
    let key_package = match lookup(m, 2) {
        Some(ValueSpec::Bytes(b)) => Some(b),
        _ => None,
    };
    if nonce is Some && proof is Some && binding is Some && key_package is Some && req_key(m, 0) is Some
        && req_key(m, 1) is Some && req_key(m, 3) is Some && req_key(m, 4) is Some && req_key(m, 5) is Some
        && req_key(m, 6) is Some {
        Some(
            JoinView {
                group_id: req_key(m, 0)->0,
                pending_id: req_key(m, 1)->0,
                key_package: key_package->0,
                signing_pk: req_key(m, 3)->0,
                cap: req_key(m, 4)->0,
                hpke: req_key(m, 5)->0,
                credential_id: req_key(m, 6)->0,
                nonce: nonce->0,
                proof: proof->0,
                invitee_binding: binding->0,
            },
        )
    } else {
        None
    }
}

/// What the text after the prefix reads as.
pub open spec fn join_parsed(text: Seq<char>) -> Option<JoinView> {
    match hex_decode(text) {
        Some(b) => match parse(b, 0) {
            Some((ValueSpec::Dict(m), n)) => if n == b.len() {
                join_from(m)
            } else {
                None
            },
            _ => None,
        },
        None => None,
    }
}

/// The text form of `req`: the prefix and the hexadecimal of its map.
pub fn join_request_uri(req: &JoinRequest) -> (r: String)
    ensures
        r@ == join_uri_of(req@),
{
    let mut pairs: Vec<(u64, Value)> = Vec::new();
    push_bytes_entry(&mut pairs, 0, &req.group_id);
    push_bytes_entry(&mut pairs, 1, &req.pending_id);
    push_bytes_entry(&mut pairs, 2, req.key_package.as_slice());
    push_bytes_entry(&mut pairs, 3, &req.signing_pk);
    push_bytes_entry(&mut pairs, 4, &req.cap);
    push_bytes_entry(&mut pairs, 5, &req.hpke);
    push_bytes_entry(&mut pairs, 6, &req.credential_id);
    push_bytes_entry(&mut pairs, 7, &req.nonce);
    if let Some(p) = &req.proof {
        push_bytes_entry(&mut pairs, 8, p.as_slice());
    }
    if let Some(b) = &req.invitee_binding {
        push_bytes_entry(&mut pairs, 9, b);
    }
    proof {
        assert(view_entries(Seq::<(u64, Value)>::empty()) == Seq::<(u64, ValueSpec)>::empty());
        assert(view_entries(pairs@) =~= join_entries(req@));
    }
    let bytes = crate::cbor::encode(&Value::Dict(pairs));
    let mut out = String::from_str("nemo-j:1:");
    proof {
        reveal_strlit("nemo-j:1:");
    }
    let h = hex_bytes(bytes.as_slice());
    out.append(h.as_str());
    assert(out@ =~= join_uri_of(req@));
    out
}

fn read_req_key(m: &[(u64, Value)], k: u64) -> (r: Option<[u8; KEY_LEN]>)
    ensures
        match req_key(view_entries(m@), k) {
            Some(b) => r matches Some(a) && a@ == b,
            None => r is None,
        },
{
    match map_get(m, k) {
        Some(Value::Bytes(b)) => copy_key(b.as_slice()),
        _ => None,
    }
}

fn join_fields(m: &[(u64, Value)]) -> (r: Option<JoinRequest>)
    ensures
        match join_from(view_entries(m@)) {
            Some(j) => r matches Some(x) && x@ == j,
            None => r is None,
        },
{
    let nonce = match map_get(m, 7) {
        None => [0u8; KEY_LEN],
        Some(Value::Bytes(b)) => match copy_key(b.as_slice()) {
            Some(a) => a,
            None => {
                return None;
            },
        },
        Some(_) => {
            return None;
        },
    };
    let proof = match map_get(m, 8) {
        None => None,
        Some(Value::Bytes(b)) => Some(array_to_vec(b.as_slice())),
        Some(_) => {
            return None;
        },
    };
    let invitee_binding = match map_get(m, 9) {
        None => None,
        Some(Value::Bytes(b)) => match copy_key(b.as_slice()) {
            Some(a) => Some(a),
            None => {
                return None;
            },
        },
        Some(_) => {
            return None;
        },
    };
    let key_package = match map_get(m, 2) {
        Some(Value::Bytes(b)) => array_to_vec(b.as_slice()),
        _ => {
            return None;
        },
    };
    let group_id = read_req_key(m, 0)?;
    let pending_id = read_req_key(m, 1)?;
    let signing_pk = read_req_key(m, 3)?;
    let cap = read_req_key(m, 4)?;
    let hpke = read_req_key(m, 5)?;
    let credential_id = read_req_key(m, 6)?;
    let r = JoinRequest {
        group_id,
        pending_id,
        key_package,
        signing_pk,
        cap,
        hpke,
        credential_id,
        nonce,
        proof,
        invitee_binding,
    };
    assert(lookup(view_entries(m@), 7) is None ==> nonce@ =~= Seq::new(KEY_LEN as nat, |i: int| 0u8));
    Some(r)
}

/// Reads a join request back from its text form. Text without the prefix,
/// or whose rest is not the hexadecimal of a well-formed request map, is
/// refused.
pub fn parse_join_request(uri: &str) -> (r: Result<JoinRequest, FfiError>)
    ensures
        !(uri@.len() >= 9 && uri@.take(9) == join_prefix()) ==> (r matches Err(FfiError::Core(m))
            && m@ == "join request must start with nemo-j:1:"@),
        (uri@.len() >= 9 && uri@.take(9) == join_prefix()) ==> match join_parsed(uri@.skip(9)) {
            Some(j) => r matches Ok(x) && x@ == j,
            None => r is Err,
        },
{
    let c = chars_of(uri);
    let n = c.len();
    let prefix = vec!['n', 'e', 'm', 'o', '-', 'j', ':', '1', ':'];
    let mut head: Vec<char> = Vec::new();
    let mut i: usize = 0;
    while i < 9 && i < n
        invariant
            i <= 9,
            i <= n,
            n == c@.len(),
            head@ == c@.take(i as int),
        decreases 9 - i,
    {
        head.push(c[i]);
        i = i + 1;
        assert(head@ =~= c@.take(i as int));
    }
    assert(prefix@ =~= join_prefix());
    if n < 9 || !chars_eq(&head, &prefix) {
        return Err(FfiError::Core(String::from_str("join request must start with nemo-j:1:")));
    }
    assert(c@.subrange(9, n as int) =~= uri@.skip(9));
    let bytes = match from_hex_chars(&c, 9, n) {
        Some(b) => b,
        None => {
            return Err(FfiError::Core(String::from_str("join request is not hexadecimal")));
        },
    };
    let m = match crate::cbor::decode(bytes.as_slice()) {
        Some(Value::Dict(m)) => m,
        _ => {
            return Err(FfiError::Core(String::from_str("join request")));
        },
    };
    match join_fields(m.as_slice()) {
        Some(j) => Ok(j),
        None => Err(FfiError::Core(String::from_str("join request"))),
    }
}

/// Keys of a request as it can be made: every id and key has [`KEY_LEN`]
/// bytes.
pub open spec fn join_keys_ok(j: JoinView) -> bool {
    &&& j.group_id.len() == KEY_LEN
    &&& j.pending_id.len() == KEY_LEN
    &&& j.signing_pk.len() == KEY_LEN
    &&& j.cap.len() == KEY_LEN
    &&& j.hpke.len() == KEY_LEN
    &&& j.credential_id.len() == KEY_LEN
    &&& j.nonce.len() == KEY_LEN
    &&& j.invitee_binding matches Some(b) ==> b.len() == KEY_LEN
}

/// A join request read back from its text form is the request that was
/// written.
pub proof fn law_join_request_roundtrip(j: JoinView)
    requires
        join_keys_ok(j),
        well_formed(ValueSpec::Dict(join_entries(j))),
    ensures
        join_uri_of(j).len() >= 9,
        join_uri_of(j).take(9) == join_prefix(),
        join_parsed(join_uri_of(j).skip(9)) == Some(j),
{
    let e = join_entries(j);
    let b = enc(ValueSpec::Dict(e));
    let u = join_uri_of(j);
    assert(u.take(9) =~= join_prefix());
    assert(u.skip(9) =~= hex_of(b));
    law_hex_roundtrip(b);
    assert forall|i: int| 0 <= i < e.len() implies nesting(#[trigger] e[i].1) <= 0 by {}
    lemma_nesting_entries_bound(e, 0);
    law_decode_encode(ValueSpec::Dict(e));
    reveal_with_fuel(lookup, 11);
    let base = seq![
        (0u64, ValueSpec::Bytes(j.group_id)),
        (1u64, ValueSpec::Bytes(j.pending_id)),
        (2u64, ValueSpec::Bytes(j.key_package)),
        (3u64, ValueSpec::Bytes(j.signing_pk)),
        (4u64, ValueSpec::Bytes(j.cap)),
        (5u64, ValueSpec::Bytes(j.hpke)),
        (6u64, ValueSpec::Bytes(j.credential_id)),
        (7u64, ValueSpec::Bytes(j.nonce)),
    ];
    match (j.proof, j.invitee_binding) {
        (Some(p), Some(w)) => {
            assert(e =~= base + seq![(8u64, ValueSpec::Bytes(p)), (9u64, ValueSpec::Bytes(w))]);
        },
        (Some(p), None) => {
            assert(e =~= base + seq![(8u64, ValueSpec::Bytes(p))]);
            assert(lookup(e, 9) is None);
        },
        (None, Some(w)) => {
            assert(e =~= base + seq![(9u64, ValueSpec::Bytes(w))]);
            assert(lookup(e, 8) is None);
        },
        (None, None) => {
            assert(e =~= base);
            assert(lookup(e, 8) is None);
            assert(lookup(e, 9) is None);
        },
    }
    assert(join_from(e) == Some(j));
}

/// The delivery capability a card link carries after `#`, in hexadecimal;
/// without one (no `#`, or nothing after it) the card's own share token.
pub open spec fn delivery_cap_of(s: Seq<char>, share_token: Seq<u8>) -> Option<Seq<u8>> {
    match first_index(s, '#') {
        Some(k) => if k + 1 < s.len() {
            match hex_decode(s.skip(k + 1)) {
                Some(b) => if b.len() == KEY_LEN {
                    Some(b)
                } else {
                    None
                },
                None => None,
            }
        } else {
            Some(share_token)
        },
        None => Some(share_token),
    }
}

pub fn parse_delivery_cap(card_or_uri: &str, share_token: [u8; KEY_LEN]) -> (r: Result<
    [u8; KEY_LEN],
    FfiError,
>)
    ensures
        match delivery_cap_of(card_or_uri@, share_token@) {
            Some(b) => r matches Ok(a) && a@ == b,
            None => r is Err,
        },
{
    let c = chars_of(card_or_uri);
    let n = c.len();
    let k = find_char(&c, 0, n, '#');
    assert(c@.subrange(0, n as int) =~= c@);
    if k >= n || k + 1 >= n {
        return Ok(share_token);
    }
    assert(c@.subrange(k + 1, n as int) =~= c@.skip(k + 1));
    match from_hex_chars(&c, k + 1, n) {
        Some(b) => match copy_key(b.as_slice()) {
            Some(a) => Ok(a),
            None => Err(FfiError::Core(String::from_str("delivery capability length"))),
        },
        None => Err(FfiError::Core(String::from_str("delivery capability is not hexadecimal"))),
    }
}

} // verus!
