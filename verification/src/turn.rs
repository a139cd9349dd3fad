//! Ephemeral TURN credentials: the username is an expiry time and a random
//! nonce, never an identity; the credential is the HMAC-SHA1 of the username
//! under the server's TURN secret, in base64. Nothing is stored.

use vstd::prelude::*;
use crate::server::ServerError;
use crate::hex::{decimal, decimal_of, hex_bytes, hex_of, lemma_decimal_ascii, lemma_u64_digits, lemma_hex_ascii};

verus! {

/// Lifetime of issued credentials.
pub const TURN_TTL_SECS: u64 = 3600;

/// Credentials for one TURN allocation.
#[derive(Clone, Debug)]
pub struct TurnCred {
    pub url: String,
    pub username: String,
    pub credential: String,
    pub ttl_secs: u64,
}

/// The HMAC-SHA1 tag of `msg` under `key`.
pub uninterp spec fn hmac_sha1(key: Seq<u8>, msg: Seq<u8>) -> Seq<u8>;

/// `ring::hmac::sign` with a `ring::hmac::Key` made by `Key::new` for
/// `HMAC_SHA1_FOR_LEGACY_USE_ONLY`: the tag is the HMAC-SHA1 of `msg` under
/// `key`, 20 bytes long. Inputs are kept below the length at which SHA-1
/// (and so `ring`) gives up.
#[verifier::external_body]
fn hmac_sha1_tag(key: &[u8], msg: &[u8]) -> (tag: Vec<u8>)
    requires
        key@.len() < 0x2000_0000_0000_0000,
        msg@.len() < 0x1000_0000_0000_0000,
    ensures
        tag@ == hmac_sha1(key@, msg@),
        tag@.len() == 20,
{
    let k = ring::hmac::Key::new(ring::hmac::HMAC_SHA1_FOR_LEGACY_USE_ONLY, key);
    ring::hmac::sign(&k, msg).as_ref().to_vec()
}

/// The character of a six-bit value in the standard base64 alphabet.
pub open spec fn b64_char(v: int) -> char {
    if v < 26 {
        (65 + v) as char
    } else if v < 52 {
        (97 + v - 26) as char
    } else if v < 62 {
        (48 + v - 52) as char
    } else if v == 62 {
        '+'
    } else {
        '/'
    }
}

/// Standard base64 (RFC 4648, with padding) of `b`: each group of three
/// bytes gives four characters of six bits each; a last group of one or
/// two bytes is filled with zero bits and padded with `=`.
pub open spec fn base64_standard(b: Seq<u8>) -> Seq<char>
    decreases b.len(),
{
    let x = b[0] as int;
    let y = if b.len() > 1 { b[1] as int } else { 0 };
    let z = if b.len() > 2 { b[2] as int } else { 0 };
    let c0 = b64_char(x / 4);
    let c1 = b64_char((x % 4) * 16 + y / 16);
    let c2 = b64_char((y % 16) * 4 + z / 64);
    let c3 = b64_char(z % 64);
    if b.len() == 0 {
        seq![]
    } else if b.len() == 1 {
        seq![c0, c1, '=', '=']
    } else if b.len() == 2 {
        seq![c0, c1, c2, '=']
    } else {
        seq![c0, c1, c2, c3] + base64_standard(b.skip(3))
    }
}

/// `base64::Engine::encode` with `base64::engine::general_purpose::STANDARD`:
/// the padded standard base64 text of `b`, four characters per started
/// group of three bytes.
#[verifier::external_body]
fn base64_encode(b: &[u8]) -> (s: String)
    requires
        b@.len() / 3 * 4 + 4 <= usize::MAX,
    ensures
        s@ == base64_standard(b@),
        s@.len() == (b@.len() + 2) / 3 * 4,
{
    base64::Engine::encode(&base64::engine::general_purpose::STANDARD, b)
}

/// Seconds since the Unix epoch by the system clock, through
/// `std::time::SystemTime::now` (0 before the epoch). Nothing is stated: it
/// is the clock.
#[verifier::external_body]
fn unix_now() -> u64 {
    std::time::SystemTime::now().duration_since(std::time::UNIX_EPOCH).map(|d| d.as_secs()).unwrap_or(0)
}

pub open spec fn expiry(now: u64) -> u64 {
    if now + TURN_TTL_SECS > u64::MAX {
        u64::MAX
    } else {
        (now + TURN_TTL_SECS) as u64
    }
}

/// The username: the expiry time in decimal, a colon, and the nonce in
/// hexadecimal.
pub open spec fn username_of(now: u64, nonce: Seq<u8>) -> Seq<char> {
    decimal_of(expiry(now)) + seq![':'] + hex_of(nonce)
}

/// Credentials valid for [`TURN_TTL_SECS`] from `now`.
pub fn issue_at(now: u64, nonce: &[u8; 16], secret: &[u8], url: String) -> (c: TurnCred)
    requires
        secret@.len() < 0x2000_0000_0000_0000,
    ensures
        c.url@ == url@,
        c.username@ == username_of(now, nonce@),
        c.credential@ == base64_standard(hmac_sha1(secret@, vstd::utf8::encode_utf8(c.username@))),
        c.ttl_secs == TURN_TTL_SECS,
{
    let mut username = decimal(now.saturating_add(TURN_TTL_SECS));
    username.append(":");
    proof {
        reveal_strlit(":");
    }
    let h = hex_bytes(nonce);
    username.append(h.as_str());
    let bytes = username.as_str().as_bytes();
    proof {
        let e = expiry(now);
        lemma_u64_digits(e);
        lemma_decimal_ascii(e, 20);
        lemma_hex_ascii(nonce@);
        let u = username@;
        assert(u =~= decimal_of(e) + seq![':'] + hex_of(nonce@));
        assert(vstd::utf8::is_ascii_chars(u));
        vstd::utf8::is_ascii_chars_encode_utf8(u);
    }
    let tag = hmac_sha1_tag(secret, bytes);
    let credential = base64_encode(tag.as_slice());
    TurnCred { url, username, credential, ttl_secs: TURN_TTL_SECS }
}

/// Fresh credentials from the clock and a random nonce, under the given
/// TURN secret and for the given relay URL; refused when the operating
/// system gives no random bytes for the nonce.
pub fn issue(secret: &[u8], url: String) -> (r: Result<TurnCred, ServerError>)
    requires
        secret@.len() < 0x2000_0000_0000_0000,
    ensures
        r is Err ==> r == Err::<TurnCred, ServerError>(ServerError::Randomness),
        r matches Ok(c) ==> {
            &&& c.url@ == url@
            &&& c.ttl_secs == TURN_TTL_SECS
            &&& exists|now: u64, nonce: Seq<u8>|
                nonce.len() == 16 && c.username@ == username_of(now, nonce)
            &&& c.credential@ == base64_standard(
                hmac_sha1(secret@, vstd::utf8::encode_utf8(c.username@)),
            )
        },
{
    let now = unix_now();
    let mut nonce = [0u8; 16];
    if !crate::rng::fill_random(&mut nonce) {
        return Err(ServerError::Randomness);
    }
    proof {
        broadcast use vstd::array::array_len_matches_n;
    }
    Ok(issue_at(now, &nonce, secret, url))
}

} // verus!
