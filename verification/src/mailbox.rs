//! Mailbox envelopes as the client reads them: what an inner message's type
//! says about how to open it, and what a gap in sequence numbers means.

use vstd::prelude::*;
use crate::error::CoreError;
use crate::ids::KEY_LEN;

verus! {

/// How long a home keeps an envelope it cannot deliver yet.
#[derive(Clone, Copy, Debug, PartialEq, Eq, Structural)]
pub enum TtlBucket {
    Seconds60,
    Hour,
    Default,
    Day,
}

/// The lifetime a bucket asks for, in seconds; the default bucket asks
/// for none and gets the home's own bound.
pub open spec fn ttl_secs_of(t: TtlBucket) -> Option<u64> {
    match t {
        TtlBucket::Seconds60 => Some(60),
        TtlBucket::Hour => Some(3600),
        TtlBucket::Day => Some(86400),
        TtlBucket::Default => None,
    }
}

impl TtlBucket {
    pub fn ttl_secs(&self) -> (r: Option<u64>)
        ensures
            r == ttl_secs_of(*self),
    {
        match self {
            TtlBucket::Seconds60 => Some(60),
            TtlBucket::Hour => Some(3600),
            TtlBucket::Day => Some(86400),
            TtlBucket::Default => None,
        }
    }
}

/// What a padded inner message carries.
#[derive(Clone, Copy, Debug, PartialEq, Eq, Structural)]
pub enum MessageType {
    PreKey,
    DoubleRatchet,
    AttachmentDr,
    AttachmentReserve,
    MlsApp,
    MlsHandshake,
    RemoveBundle,
    RevocationStatement,
    SigningKeyReplace,
}

/// A fresh random token (delivery capability or idempotency token), or
/// `None` when the operating system gave no random bytes.
pub fn random_token() -> (t: Option<[u8; KEY_LEN]>) {
    let mut t = [0u8; KEY_LEN];
    if crate::rng::fill_random(&mut t) {
        Some(t)
    } else {
        None
    }
}

/// The body of an inner message of type `want`; any other type is refused.
pub fn expect_type(type_: MessageType, body: &[u8], want: MessageType) -> (r: Result<&[u8], CoreError>)
    ensures
        type_ == want ==> (r matches Ok(b) && b@ == body@),
        type_ != want ==> r == Err::<&[u8], CoreError>(CoreError::WrongMailboxType),
{
    if type_ != want {
        return Err(CoreError::WrongMailboxType);
    }
    Ok(body)
}

/// The body of a 1:1 ratchet message (text or attachment); any other type is
/// refused.
pub fn expect_ratchet(type_: MessageType, body: &[u8]) -> (r: Result<&[u8], CoreError>)
    ensures
        (type_ == MessageType::DoubleRatchet || type_ == MessageType::AttachmentDr) ==> (r matches Ok(
            b,
        ) && b@ == body@),
        !(type_ == MessageType::DoubleRatchet || type_ == MessageType::AttachmentDr) ==> r
            == Err::<&[u8], CoreError>(CoreError::WrongMailboxType),
{
    match type_ {
        MessageType::DoubleRatchet | MessageType::AttachmentDr => Ok(body),
        _ => Err(CoreError::WrongMailboxType),
    }
}

/// A hole after the last acknowledged sequence number is loss, not delay:
/// the first fetched row must follow it directly.
pub fn messages_lost(last_acked_seq: u64, first_fetched_seq: u64) -> (r: bool)
    ensures
        r == (first_fetched_seq > last_acked_seq + 1),
{
    first_fetched_seq > last_acked_seq.saturating_add(1)
}

} // verus!
