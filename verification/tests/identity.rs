use nemo::error::CoreError;
use nemo::identity::{revocation_seed_from_mnemonic, seed_from_entropy};

fn phrase(word: &str, last: &str) -> String {
    let mut words = vec![word; 23];
    words.push(last);
    words.join(" ")
}

#[test]
fn zero_entropy_phrase_gives_zero_seed() {
    assert_eq!(revocation_seed_from_mnemonic(&phrase("abandon", "art")), Ok([0u8; 32]));
}

#[test]
fn full_entropy_phrase_gives_full_seed() {
    assert_eq!(revocation_seed_from_mnemonic(&phrase("zoo", "vote")), Ok([0xffu8; 32]));
}

#[test]
fn legal_winner_phrase_gives_its_entropy() {
    let p = "legal winner thank year wave sausage worth useful legal winner thank year \
             wave sausage worth useful legal winner thank year wave sausage worth title";
    assert_eq!(revocation_seed_from_mnemonic(p), Ok([0x7fu8; 32]));
}

#[test]
fn short_phrase_is_refused() {
    let mut words = vec!["abandon"; 11];
    words.push("about");
    assert_eq!(revocation_seed_from_mnemonic(&words.join(" ")), Err(CoreError::Mnemonic));
}

#[test]
fn bad_checksum_and_unknown_words_are_refused() {
    assert_eq!(revocation_seed_from_mnemonic(&phrase("abandon", "abandon")), Err(CoreError::Mnemonic));
    assert_eq!(revocation_seed_from_mnemonic(&phrase("abandon", "notaword")), Err(CoreError::Mnemonic));
    assert_eq!(revocation_seed_from_mnemonic(""), Err(CoreError::Mnemonic));
}

#[test]
fn seed_needs_exactly_a_key_of_entropy() {
    assert_eq!(seed_from_entropy(Some(vec![7u8; 32])), Ok([7u8; 32]));
    assert_eq!(seed_from_entropy(Some(vec![7u8; 16])), Err(CoreError::Mnemonic));
    assert_eq!(seed_from_entropy(None), Err(CoreError::Mnemonic));
}
