//! The revocation key kept on paper: a BIP-39 phrase whose entropy is the
//! seed of the identity's revocation signing key.

use vstd::prelude::*;

use crate::error::CoreError;
use crate::ids::{copy_key, KEY_LEN};

verus! {

/// The entropy that the BIP-39 phrase `phrase` encodes, or `None` when it
/// is no valid phrase (word count, unknown word, ambiguous language or
/// checksum).
pub uninterp spec fn mnemonic_entropy(phrase: Seq<char>) -> Option<Seq<u8>>;

/// `bip39::Mnemonic::parse_normalized` on `phrase`, then `to_entropy` on
/// the parsed mnemonic. Claimed: the call gives the entropy exactly when it
/// parses, and both depend on the phrase alone.
#[verifier::external_body]
fn bip39_entropy(phrase: &str) -> (r: Option<Vec<u8>>)
    ensures
        r matches Some(v) ==> mnemonic_entropy(phrase@) == Some(v@),
        r is None ==> mnemonic_entropy(phrase@) is None,
{
    match bip39::Mnemonic::parse_normalized(phrase) {
        Ok(m) => Some(m.to_entropy()),
        Err(_) => None,
    }
}

/// The revocation seed carried by a phrase's entropy: the entropy itself
/// when the phrase parsed and holds exactly [`KEY_LEN`] bytes.
pub fn seed_from_entropy(entropy: Option<Vec<u8>>) -> (r: Result<[u8; KEY_LEN], CoreError>)
    ensures
        r is Ok <==> (entropy matches Some(e) && e@.len() == KEY_LEN),
        r matches Ok(seed) ==> entropy matches Some(e) && seed@ == e@,
        r is Err ==> r == Err::<[u8; KEY_LEN], CoreError>(CoreError::Mnemonic),
{
    match entropy {
        Some(e) => match copy_key(e.as_slice()) {
            Some(seed) => Ok(seed),
            None => Err(CoreError::Mnemonic),
        },
        None => Err(CoreError::Mnemonic),
    }
}

/// The revocation signing seed written down as a BIP-39 phrase.
pub fn revocation_seed_from_mnemonic(mnemonic: &str) -> (r: Result<[u8; KEY_LEN], CoreError>)
    ensures
        r is Ok <==> (mnemonic_entropy(mnemonic@) matches Some(e) && e.len() == KEY_LEN),
        r matches Ok(seed) ==> mnemonic_entropy(mnemonic@) == Some(seed@),
        r is Err ==> r == Err::<[u8; KEY_LEN], CoreError>(CoreError::Mnemonic),
{
    seed_from_entropy(bip39_entropy(mnemonic))
}

} // verus!
