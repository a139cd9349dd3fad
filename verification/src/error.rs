use vstd::prelude::*;

verus! {

/// Errors of the client core.
#[derive(Debug, Clone, PartialEq, Eq)]
pub enum CoreError {
    /// A wire object is malformed; the text names what was expected.
    Wire(String),
    /// The wire object carries a protocol version this build does not speak.
    UnknownVersion(u64),
    Mnemonic,
    EmptyPrekeyStock,
    IdentityMismatch,
    BadKey,
    BadCiphertext,
    TextTooLong,
    EmojiTooLong,
    DirectIceForbidden,
    DtlsFingerprintMismatch,
    Call(String),
    Mls(String),
    StaleMlsUpdate,
    UnframedRemove,
    ExternalMlsJoin,
    MlsReinit,
    WrongCiphersuite,
    BadRemoveBundle,
    WrongMailboxType,
    MaximumNotShipped,
    CoverNotShipped,
    Revoked,
    BindingDowngrade,
    Denied,
    AlreadyRegistered,
    HomeHttp(u16),
    Transport(String),
    VaultCorrupt,
    VaultLocked,
    VaultIo(String),
    WeakPassphrase,
    UnknownContact,
    /// The operating system could not supply random bytes.
    Randomness,
}

} // verus!
