//! Error types returned by the vault core.

use vstd::prelude::*;

verus! {

/// Failures of the vault core, each reported distinctly so the caller
/// can tell a wrong password from a damaged file.
#[derive(Clone, Copy, Debug, PartialEq, Eq, Structural)]
pub enum VaultError {
    /// Key derivation rejected its parameters or ran out of memory.
    KeyDerivation,
    /// The stored verifier does not match the key derived from the
    /// supplied password: the password is wrong.
    IncorrectPassword,
    /// The authenticated cipher rejected the ciphertext: the file was
    /// tampered with, or encrypted under another key or nonce.
    AuthenticationFailure,
    /// The on-disk record is truncated or structurally invalid.
    MalformedRecord,
    /// The record decrypted, but the plaintext does not decode as a
    /// credential collection.
    CorruptVault,
}

/// Failures of the command layer: input validation on top of the
/// vault errors.
#[derive(Clone, Copy, Debug, PartialEq, Eq, Structural)]
pub enum CommandError {
    /// The service name is empty or entirely whitespace.
    EmptyService,
    /// The password is shorter than eight bytes.
    ShortPassword,
    /// The email address holds no `@`.
    InvalidEmail,
    /// A vault-core failure while persisting the change.
    Vault(VaultError),
}

} // verus!
