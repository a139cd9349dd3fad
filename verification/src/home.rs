//! Client to home over HTTP: the request and response shapes, how a status
//! maps to an error, the wakeup and peer origins, and the records the client
//! keeps about its homes.

use vstd::prelude::*;
use crate::cbor::{Value, ValueSpec, lookup, map_get, enc, parse, view_entries, lemma_view_entries_push};
use crate::call::{pieces, trim, lemma_piece, trim_bounds};
use crate::error::CoreError;
use crate::ice::{chars_of, chars_eq};
use crate::ids::{KEY_LEN, copy_key, array_to_vec};
use crate::privacy::PrivacyMode;
use crate::tor::{trim_slashes, find_char, first_index};

verus! {

/// Most mailbox rows fetched per request.
pub const FETCH_LIMIT: u64 = 64;

#[derive(Clone, Debug)]
pub struct HttpRequest {
    pub method: &'static str,
    pub path: String,
    pub headers: Vec<(String, String)>,
    pub body: Vec<u8>,
}

#[derive(Clone, Debug)]
pub struct HttpResponse {
    pub status: u16,
    pub body: Vec<u8>,
}

/// Where an envelope went: appended to a mailbox on this home (with its
/// sequence number), or queued for another home.
#[derive(Clone, Copy, Debug, PartialEq, Eq, Structural)]
pub enum EnqueueResult {
    Local(u64),
    Queued,
}

/// The error a home's answer means, if any.
pub open spec fn status_error(status: u16) -> Option<CoreError> {
    if status == 200 || status == 204 {
        None
    } else if status == 401 || status == 403 {
        Some(CoreError::Denied)
    } else if status == 409 {
        Some(CoreError::AlreadyRegistered)
    } else {
        Some(CoreError::HomeHttp(status))
    }
}

/// 200 and 204 are success; 401 and 403 refusal; 409 a second registration;
/// any other status is reported as it came.
pub fn check_status(res: &HttpResponse) -> (r: Result<(), CoreError>)
    ensures
        match status_error(res.status) {
            None => r is Ok,
            Some(e) => r == Err::<(), CoreError>(e),
        },
{
    match res.status {
        200 | 204 => Ok(()),
        401 | 403 => Err(CoreError::Denied),
        409 => Err(CoreError::AlreadyRegistered),
        other => Err(CoreError::HomeHttp(other)),
    }
}

/// A success with nothing to read.
pub fn check_empty(res: &HttpResponse) -> (r: Result<(), CoreError>)
    ensures
        match status_error(res.status) {
            None => r is Ok,
            Some(e) => r == Err::<(), CoreError>(e),
        },
{
    check_status(res)
}

/// The body of a success.
pub fn check_body(res: &HttpResponse) -> (r: Result<&[u8], CoreError>)
    ensures
        match status_error(res.status) {
            None => r matches Ok(b) && b@ == res.body@,
            Some(e) => r matches Err(x) && x == e,
        },
{
    check_status(res)?;
    Ok(res.body.as_slice())
}

// ---------------------------------------------------------------------------
// Origins
// ---------------------------------------------------------------------------

pub open spec fn http_prefix() -> Seq<char> {
    seq!['h', 't', 't', 'p', ':', '/', '/']
}

pub open spec fn https_prefix() -> Seq<char> {
    seq!['h', 't', 't', 'p', 's', ':', '/', '/']
}

pub open spec fn starts_with(s: Seq<char>, p: Seq<char>) -> bool {
    s.len() >= p.len() && s.take(p.len() as int) == p
}

/// The websocket URL of a home's wakeup channel.
pub open spec fn wakeup_of(base: Seq<char>) -> Seq<char> {
    if starts_with(base, https_prefix()) {
        "wss://"@ + base.skip(8) + "/v1/wakeup"@
    } else if starts_with(base, http_prefix()) {
        "ws://"@ + base.skip(7) + "/v1/wakeup"@
    } else {
        base + "/v1/wakeup"@
    }
}

fn has_prefix(c: &Vec<char>, p: &Vec<char>) -> (r: bool)
    ensures
        r == starts_with(c@, p@),
{
    if c.len() < p.len() {
        return false;
    }
    let mut k: usize = 0;
    while k < p.len()
        invariant
            p@.len() <= c@.len(),
            k <= p@.len(),
            forall|m: int| 0 <= m < k ==> c@[m] == p@[m],
        decreases p@.len() - k,
    {
        if c[k] != p[k] {
            assert(c@.take(p@.len() as int)[k as int] != p@[k as int]);
            return false;
        }
        k = k + 1;
    }
    assert(c@.take(p@.len() as int) =~= p@);
    true
}

fn http_word() -> (r: Vec<char>)
    ensures
        r@ == http_prefix(),
{
    let r = vec!['h', 't', 't', 'p', ':', '/', '/'];
    assert(r@ =~= http_prefix());
    r
}

fn https_word() -> (r: Vec<char>)
    ensures
        r@ == https_prefix(),
{
    let r = vec!['h', 't', 't', 'p', 's', ':', '/', '/'];
    assert(r@ =~= https_prefix());
    r
}

/// `https://` homes wake their clients over `wss://`, `http://` homes over
/// `ws://`.
pub fn wakeup_url(base: &str) -> (r: String)
    ensures
        r@ == wakeup_of(base@),
{
    let c = chars_of(base);
    let n = c.len();
    if has_prefix(&c, &https_word()) {
        String::from_str("wss://").concat(base.substring_char(8, n)).concat("/v1/wakeup")
    } else if has_prefix(&c, &http_word()) {
        String::from_str("ws://").concat(base.substring_char(7, n)).concat("/v1/wakeup")
    } else {
        String::from_str(base).concat("/v1/wakeup")
    }
}

/// What one `host=origin` pair says about `host`: `None` when the pair has
/// no `=`, the origin when the pair names `host`.
pub open spec fn pair_override(p: Seq<char>, host: Seq<char>) -> Option<Option<Seq<char>>> {
    match first_index(p, '=') {
        None => None,
        Some(i) => if trim(p.take(i)) == host {
            Some(Some(trim_slashes(trim(p.skip(i + 1)))))
        } else {
            Some(None)
        },
    }
}

/// The origin an override list names for `host`. The list is
/// `host=origin` pairs separated by commas; a pair without `=` ends the
/// search with nothing.
pub open spec fn override_in(parts: Seq<Seq<char>>, host: Seq<char>) -> Option<Seq<char>>
    decreases parts.len(),
{
    if parts.len() == 0 {
        None
    } else {
        match pair_override(parts[0], host) {
            None => None,
            Some(Some(o)) => Some(o),
            Some(None) => override_in(parts.drop_first(), host),
        }
    }
}

/// The origin of a peer's home. A peer on this home stays on its transport;
/// otherwise an override for the peer's host wins; otherwise the peer's host
/// under this home's scheme (`http` only when this home is `http://`).
pub open spec fn peer_origin(
    peer_host: Seq<char>,
    same_server: bool,
    own_base: Seq<char>,
    overrides: Option<Seq<char>>,
) -> Seq<char> {
    if same_server {
        trim_slashes(own_base)
    } else {
        match overrides {
            Some(raw) => match override_in(pieces(raw, ','), peer_host) {
                Some(o) => o,
                None => default_origin(peer_host, own_base),
            },
            None => default_origin(peer_host, own_base),
        }
    }
}

pub open spec fn default_origin(peer_host: Seq<char>, own_base: Seq<char>) -> Seq<char> {
    if starts_with(own_base, http_prefix()) {
        "http"@ + "://"@ + trim_slashes(peer_host)
    } else {
        "https"@ + "://"@ + trim_slashes(peer_host)
    }
}

/// `s` without trailing slashes, as a string.
pub(crate) fn trim_slashes_str(s: &str) -> (r: String)
    ensures
        r@ == trim_slashes(s@),
{
    let c = chars_of(s);
    let mut end = c.len();
    proof {
        assert(c@.subrange(0, end as int) =~= c@);
    }
    while end > 0 && c[end - 1] == '/'
        invariant
            end <= c@.len(),
            c@ == s@,
            trim_slashes(s@) == trim_slashes(c@.subrange(0, end as int)),
        decreases end,
    {
        assert(c@.subrange(0, end as int).drop_last() =~= c@.subrange(0, end - 1));
        end = end - 1;
    }
    assert(trim_slashes(c@.subrange(0, end as int)) == c@.subrange(0, end as int));
    String::from_str(s.substring_char(0, end))
}

fn check_pair(raw: &str, c: &Vec<char>, h: &Vec<char>, i: usize, j: usize) -> (r: Option<
    Option<String>,
>)
    requires
        c@ == raw@,
        i <= j <= c@.len(),
    ensures
        match pair_override(c@.subrange(i as int, j as int), h@) {
            None => r is None,
            Some(None) => r == Some(None::<String>),
            Some(Some(o)) => r matches Some(Some(s)) && s@ == o,
        },
{
    let ghost part = c@.subrange(i as int, j as int);
    let eq = find_char(c, i, j, '=');
    if eq == j {
        return None;
    }
    let (ha, hb) = trim_bounds(c, i, eq);
    let (ua, ub) = trim_bounds(c, eq + 1, j);
    proof {
        assert(part.take(eq - i) =~= c@.subrange(i as int, eq as int));
        assert(part.skip(eq - i + 1) =~= c@.subrange(eq + 1, j as int));
    }
    let name = chars_of(raw.substring_char(ha, hb));
    if chars_eq(&name, h) {
        Some(Some(trim_slashes_str(raw.substring_char(ua, ub))))
    } else {
        Some(None)
    }
}

/// Looks `host` up in an override list.
pub fn host_origin_override(host: &str, raw: &str) -> (r: Option<String>)
    ensures
        match override_in(pieces(raw@, ','), host@) {
            Some(o) => r matches Some(s) && s@ == o,
            None => r is None,
        },
{
    let c = chars_of(raw);
    let h = chars_of(host);
    let n = c.len();
    let mut i: usize = 0;
    proof {
        assert(c@.skip(0) =~= c@);
    }
    loop
        invariant
            i <= n,
            n == c@.len(),
            c@ == raw@,
            h@ == host@,
            override_in(pieces(raw@, ','), host@) == override_in(
                pieces(c@.skip(i as int), ','),
                host@,
            ),
        decreases n - i,
    {
        let j = find_char(&c, i, n, ',');
        proof {
            let t = c@.skip(i as int);
            let part = c@.subrange(i as int, j as int);
            assert forall|k: int| 0 <= k < j - i implies t[k] != ',' by {
                assert(t[k] == c@[i + k]);
            }
            lemma_piece(t, j - i, ',');
            assert(t.take(j - i) =~= part);
            let rest = if j < n {
                pieces(c@.skip(j + 1), ',')
            } else {
                Seq::<Seq<char>>::empty()
            };
            if j == n {
                assert(t =~= part);
                assert(pieces(t, ',') =~= seq![part]);
                assert(seq![part].drop_first() =~= Seq::<Seq<char>>::empty());
            } else {
                assert(c@.skip(j + 1) =~= t.skip(j - i + 1));
            }
            assert((seq![part] + rest)[0] == part);
            assert((seq![part] + rest).drop_first() =~= rest);
            assert(pieces(t, ',') =~= seq![part] + rest);
        }
        match check_pair(raw, &c, &h, i, j) {
            None => {
                return None;
            },
            Some(Some(o)) => {
                return Some(o);
            },
            Some(None) => {},
        }
        if j == n {
            assert(override_in(Seq::<Seq<char>>::empty(), host@) is None);
            return None;
        }
        i = j + 1;
    }
}

/// The HTTP origin of a peer's home; `overrides` is the configured override
/// list, if any.
pub fn peer_http_origin(
    peer_host: &str,
    peer_server: [u8; KEY_LEN],
    own_host: &str,
    own_server: [u8; KEY_LEN],
    own_base: &str,
    overrides: Option<&str>,
) -> (r: String)
    ensures
        r@ == peer_origin(
            peer_host@,
            peer_server@ == own_server@,
            own_base@,
            match overrides {
                Some(o) => Some(o@),
                None => None,
            },
        ),
{
    if same_key(&peer_server, &own_server) {
        return trim_slashes_str(own_base);
    }
    if let Some(raw) = overrides {
        if let Some(over) = host_origin_override(peer_host, raw) {
            return over;
        }
    }
    let scheme = if has_prefix(&chars_of(own_base), &http_word()) {
        "http"
    } else {
        "https"
    };
    let host = trim_slashes_str(peer_host);
    String::from_str(scheme).concat("://").concat(host.as_str())
}

fn same_key(a: &[u8; KEY_LEN], b: &[u8; KEY_LEN]) -> (r: bool)
    ensures
        r == (a@ == b@),
{
    let mut i: usize = 0;
    while i < KEY_LEN
        invariant
            a@.len() == KEY_LEN,
            b@.len() == KEY_LEN,
            i <= KEY_LEN,
            forall|k: int| 0 <= k < i ==> a@[k] == b@[k],
        decreases KEY_LEN - i,
    {
        if a[i] != b[i] {
            return false;
        }
        i = i + 1;
    }
    assert(a@ =~= b@);
    true
}

// ---------------------------------------------------------------------------
// Privacy mode as stored
// ---------------------------------------------------------------------------

pub open spec fn privacy_code(mode: PrivacyMode) -> u64 {
    match mode {
        PrivacyMode::Normal => 0,
        PrivacyMode::Private => 1,
        PrivacyMode::High => 2,
        PrivacyMode::Maximum => 3,
    }
}

/// The number a privacy mode is stored as.
pub fn privacy_to_u64(mode: PrivacyMode) -> (r: u64)
    ensures
        r == privacy_code(mode),
{
    match mode {
        PrivacyMode::Normal => 0,
        PrivacyMode::Private => 1,
        PrivacyMode::High => 2,
        PrivacyMode::Maximum => 3,
    }
}

/// The privacy mode a stored number names; any other number is corrupt.
pub fn privacy_from_u64(v: u64) -> (r: Result<PrivacyMode, CoreError>)
    ensures
        v <= 3 ==> (r matches Ok(m) && privacy_code(m) == v),
        v > 3 ==> r == Err::<PrivacyMode, CoreError>(CoreError::VaultCorrupt),
{
    match v {
        0 => Ok(PrivacyMode::Normal),
        1 => Ok(PrivacyMode::Private),
        2 => Ok(PrivacyMode::High),
        3 => Ok(PrivacyMode::Maximum),
        _ => Err(CoreError::VaultCorrupt),
    }
}

/// A stored privacy mode reads back as the same mode.
pub proof fn law_privacy_code_roundtrip(m: PrivacyMode, n: PrivacyMode)
    ensures
        privacy_code(m) <= 3,
        privacy_code(m) == privacy_code(n) ==> m == n,
{
}

// ---------------------------------------------------------------------------
// Group host credentials as stored
// ---------------------------------------------------------------------------

#[derive(Clone, Copy, Debug, PartialEq, Eq)]
pub struct HostCred {
    pub credential_id: [u8; KEY_LEN],
    pub credential_secret: [u8; KEY_LEN],
}

/// An accepted group invite: the pending join and the credential the host
/// issued for it.
#[derive(Clone, Copy, Debug, PartialEq, Eq)]
pub struct HostAccept {
    pub pending_id: [u8; KEY_LEN],
    pub cred: HostCred,
    pub invitee_binding: Option<[u8; KEY_LEN]>,
}

/// The content of a [`HostAccept`].
pub struct AcceptView {
    pub pending_id: Seq<u8>,
    pub credential_id: Seq<u8>,
    pub credential_secret: Seq<u8>,
    pub invitee_binding: Option<Seq<u8>>,
}

impl View for HostAccept {
    type V = AcceptView;

    open spec fn view(&self) -> AcceptView {
        AcceptView {
            pending_id: self.pending_id@,
            credential_id: self.cred.credential_id@,
            credential_secret: self.cred.credential_secret@,
            invitee_binding: match self.invitee_binding {
                Some(b) => Some(b@),
                None => None,
            },
        }
    }
}

/// The CBOR map an accepted invite is stored as.
pub open spec fn accept_entries(a: AcceptView) -> Seq<(u64, ValueSpec)> {
    seq![
        (0u64, ValueSpec::Bytes(a.pending_id)),
        (1u64, ValueSpec::Bytes(a.credential_id)),
        (2u64, ValueSpec::Bytes(a.credential_secret)),
    ] + match a.invitee_binding {
        Some(b) => seq![(3u64, ValueSpec::Bytes(b))],
        None => seq![],
    }
}

/// Why a stored record does not read back.
pub enum StoreFault {
    /// Not a CBOR map, or a field missing or not a byte string.
    Corrupt,
    /// A key field of the wrong length.
    Wire,
}

pub open spec fn store_reports(e: CoreError, f: StoreFault) -> bool {
    match f {
        StoreFault::Corrupt => e == CoreError::VaultCorrupt,
        StoreFault::Wire => e is Wire,
    }
}

pub open spec fn key_field(m: Seq<(u64, ValueSpec)>, k: u64) -> Result<Seq<u8>, StoreFault> {
    match lookup(m, k) {
        Some(ValueSpec::Bytes(b)) => if b.len() == KEY_LEN {
            Ok(b)
        } else {
            Err(StoreFault::Wire)
        },
        _ => Err(StoreFault::Corrupt),
    }
}

/// Fields are read in key order; the first that fails decides the error.
pub open spec fn accept_from(m: Seq<(u64, ValueSpec)>) -> Result<AcceptView, StoreFault> {
    match (key_field(m, 0), key_field(m, 1), key_field(m, 2)) {
        (Err(f), _, _) => Err(f),
        (Ok(_), Err(f), _) => Err(f),
        (Ok(_), Ok(_), Err(f)) => Err(f),
        (Ok(p), Ok(id), Ok(sec)) => match lookup(m, 3) {
            None => Ok(
                AcceptView {
                    pending_id: p,
                    credential_id: id,
                    credential_secret: sec,
                    invitee_binding: None,
                },
            ),
            Some(_) => match key_field(m, 3) {
                Ok(b) => Ok(
                    AcceptView {
                        pending_id: p,
                        credential_id: id,
                        credential_secret: sec,
                        invitee_binding: Some(b),
                    },
                ),
                Err(f) => Err(f),
            },
        },
    }
}

pub open spec fn accept_decoded(b: Seq<u8>) -> Result<AcceptView, StoreFault> {
    match parse(b, 0) {
        Some((ValueSpec::Dict(m), n)) => if n == b.len() {
            accept_from(m)
        } else {
            Err(StoreFault::Corrupt)
        },
        _ => Err(StoreFault::Corrupt),
    }
}

pub(crate) fn read_key_field(m: &[(u64, Value)], k: u64) -> (r: Result<[u8; KEY_LEN], CoreError>)
    ensures
        match key_field(view_entries(m@), k) {
            Ok(b) => r matches Ok(a) && a@ == b,
            Err(f) => r matches Err(e) && store_reports(e, f),
        },
{
    match map_get(m, k) {
        Some(Value::Bytes(b)) => match copy_key(b.as_slice()) {
            Some(a) => Ok(a),
            None => Err(CoreError::Wire(String::from_str("key length"))),
        },
        _ => Err(CoreError::VaultCorrupt),
    }
}

pub(crate) fn push_bytes_entry(pairs: &mut Vec<(u64, Value)>, k: u64, b: &[u8])
    ensures
        view_entries(final(pairs)@) == view_entries(old(pairs)@).push((k, ValueSpec::Bytes(b@))),
{
    let v = Value::Bytes(array_to_vec(b));
    proof {
        lemma_view_entries_push(pairs@, (k, v));
    }
    pairs.push((k, v));
}

impl HostAccept {
    /// The stored form.
    pub fn encode(&self) -> (r: Vec<u8>)
        ensures
            r@ == enc(ValueSpec::Dict(accept_entries(self@))),
    {
        let mut pairs: Vec<(u64, Value)> = Vec::new();
        push_bytes_entry(&mut pairs, 0, &self.pending_id);
        push_bytes_entry(&mut pairs, 1, &self.cred.credential_id);
        push_bytes_entry(&mut pairs, 2, &self.cred.credential_secret);
        if let Some(b) = &self.invitee_binding {
            push_bytes_entry(&mut pairs, 3, b);
        }
        proof {
            assert(view_entries(Seq::<(u64, Value)>::empty()) == Seq::<(u64, ValueSpec)>::empty());
            assert(view_entries(pairs@) =~= accept_entries(self@));
        }
        crate::cbor::encode(&Value::Dict(pairs))
    }

    /// Reads the stored form back.
    pub fn decode(bytes: &[u8]) -> (r: Result<HostAccept, CoreError>)
        ensures
            match accept_decoded(bytes@) {
                Ok(a) => r matches Ok(x) && x@ == a,
                Err(f) => r matches Err(e) && store_reports(e, f),
            },
    {
        let m = match crate::cbor::decode(bytes) {
            Some(Value::Dict(m)) => m,
            _ => {
                return Err(CoreError::VaultCorrupt);
            },
        };
        let pending_id = read_key_field(m.as_slice(), 0)?;
        let credential_id = read_key_field(m.as_slice(), 1)?;
        let credential_secret = read_key_field(m.as_slice(), 2)?;
        let invitee_binding = match map_get(m.as_slice(), 3) {
            None => None,
            Some(_) => Some(read_key_field(m.as_slice(), 3)?),
        };
        Ok(
            HostAccept {
                pending_id,
                cred: HostCred { credential_id, credential_secret },
                invitee_binding,
            },
        )
    }
}

/// A stored accepted invite reads back unchanged.
pub proof fn law_accept_roundtrip(a: AcceptView)
    requires
        a.pending_id.len() == KEY_LEN,
        a.credential_id.len() == KEY_LEN,
        a.credential_secret.len() == KEY_LEN,
        a.invitee_binding matches Some(b) ==> b.len() == KEY_LEN,
    ensures
        accept_decoded(enc(ValueSpec::Dict(accept_entries(a)))) == Ok::<AcceptView, StoreFault>(a),
{
    let e = accept_entries(a);
    reveal_with_fuel(lookup, 5);
    assert forall|i: int| 0 <= i < e.len() implies crate::cbor::nesting(#[trigger] e[i].1) <= 0
        && crate::cbor::well_formed(e[i].1) by {}
    crate::cbor::lemma_nesting_entries_bound(e, 0);
    crate::cbor::lemma_well_formed_entries_all(e);
    crate::cbor::law_decode_encode(ValueSpec::Dict(e));
}


/// A home's answer counts as success exactly when its status is 200 or
/// 204; 401 and 403 are a refusal, 409 a second registration, and any other
/// status (a 400 for a refused fetch limit or bad CBOR among them) is an
/// error that carries that status.
pub proof fn law_status_outcome(status: u16)
    ensures
        status_error(status) is None <==> (status == 200 || status == 204),
        (status == 401 || status == 403) ==> status_error(status) == Some(CoreError::Denied),
        status == 409 ==> status_error(status) == Some(CoreError::AlreadyRegistered),
        !(status == 200 || status == 204 || status == 401 || status == 403 || status == 409)
            ==> status_error(status) == Some(CoreError::HomeHttp(status)),
{
}

} // verus!
