//! Cryptographic primitives: key derivation, authenticated
//! encryption and decryption, and salt strings. Each executable
//! function here wraps an outside implementation; its contract states
//! what that implementation documents, over named results where the
//! computation itself is beyond restating.

use vstd::prelude::*;
use aes_gcm::aead::{Aead, Generate, KeyInit};
use crate::errors::VaultError;

verus! {

/// The 32-byte key that Argon2id (64 MiB, 3 iterations, 1 lane)
/// derives from a password and salt. Naming the result states that
/// the derivation is a function of the two arguments alone:
/// deterministic, on every machine.
pub uninterp spec fn argon2_key(password: Seq<char>, salt: Seq<u8>) -> Seq<u8>;

/// The AES-256-GCM sealing of a plaintext under a key and nonce: the
/// ciphertext with its 16-byte integrity tag appended.
pub uninterp spec fn gcm_seal(key: Seq<u8>, nonce: Seq<u8>, plaintext: Seq<u8>) -> Seq<u8>;

/// Whether a string is a valid B64 salt encoding.
pub uninterp spec fn salt_b64_ok(s: Seq<char>) -> bool;

/// The characters a B64 salt string may consist of.
pub open spec fn is_salt_char(c: char) -> bool {
    ('A' <= c && c <= 'Z') || ('a' <= c && c <= 'z') || ('0' <= c && c <= '9') || c == '+' || c
        == '/'
}

/// The greatest plaintext length AES-GCM accepts.
pub open spec fn max_plaintext_len() -> int {
    0xF_FFFF_FFE0
}

/// Relies on `Argon2::hash_password_into` with Argon2id, version 19,
/// 64 MiB of memory, 3 iterations, 1 lane and 32-byte output: the
/// result is deterministic in the password and salt; a salt shorter
/// than 8 bytes is rejected; any other failure is an allocation
/// failure of its working memory.
#[verifier::external_body]
pub fn derive_key(master_password: &str, salt: &[u8]) -> (r: Result<Vec<u8>, VaultError>)
    ensures
        r matches Ok(k) ==> k@.len() == 32 && k@ == argon2_key(master_password@, salt@),
        r is Ok ==> salt@.len() >= 8,
        r matches Err(e) ==> e == VaultError::KeyDerivation,
{
    let params = match argon2::Params::new(65536, 3, 1, Some(32)) {
        Ok(p) => p,
        Err(_) => return Err(VaultError::KeyDerivation),
    };
    let argon = argon2::Argon2::new(argon2::Algorithm::Argon2id, argon2::Version::V0x13, params);
    let mut key = [0u8; 32];
    match argon.hash_password_into(master_password.as_bytes(), salt, &mut key) {
        Ok(()) => Ok(key.to_vec()),
        Err(_) => Err(VaultError::KeyDerivation),
    }
}

/// Relies on `Aes256Gcm::encrypt` and on the freshly generated
/// random nonce: the ciphertext is the GCM sealing of the plaintext
/// under the key and that 12-byte nonce, 16 bytes longer than the
/// plaintext. Nothing is stated of the nonce's value: it is random.
#[verifier::external_body]
pub fn encrypt(key: &[u8], plaintext: &[u8]) -> (r: Result<(Vec<u8>, Vec<u8>), VaultError>)
    requires
        key@.len() == 32,
        plaintext@.len() <= max_plaintext_len(),
        plaintext@.len() + 16 <= usize::MAX,
    ensures
        r is Ok,
        r matches Ok(p) ==> p.1@.len() == 12 && p.0@ == gcm_seal(key@, p.1@, plaintext@)
            && p.0@.len() == plaintext@.len() + 16,
{
    let cipher = match aes_gcm::Aes256Gcm::new_from_slice(key) {
        Ok(c) => c,
        Err(_) => return Err(VaultError::KeyDerivation),
    };
    let nonce = aes_gcm::Nonce::generate();
    match cipher.encrypt(&nonce, plaintext) {
        Ok(ct) => Ok((ct, nonce.to_vec())),
        Err(_) => Err(VaultError::KeyDerivation),
    }
}

/// Relies on `Aes256Gcm::decrypt`: it returns the plaintext whose
/// sealing under this key and nonce is the ciphertext, and fails on
/// every byte string that is no such sealing — wrong key, wrong
/// nonce, or tampered bytes — without releasing any partial
/// plaintext.
#[verifier::external_body]
pub fn decrypt(key: &[u8], nonce: &[u8], ciphertext: &[u8]) -> (r: Result<Vec<u8>, VaultError>)
    requires
        key@.len() == 32,
        nonce@.len() == 12,
    ensures
        r matches Ok(q) ==> ciphertext@ == gcm_seal(key@, nonce@, q@) && q@.len() + 16
            == ciphertext@.len() && q@.len() <= max_plaintext_len(),
        r matches Ok(q) ==> forall|p: Seq<u8>|
            p.len() <= max_plaintext_len() && ciphertext@ == gcm_seal(key@, nonce@, p) ==> p
                == q@,
        r is Err ==> forall|p: Seq<u8>|
            p.len() <= max_plaintext_len() ==> ciphertext@ != gcm_seal(key@, nonce@, p),
        r matches Err(e) ==> e == VaultError::AuthenticationFailure,
{
    let cipher = match aes_gcm::Aes256Gcm::new_from_slice(key) {
        Ok(c) => c,
        Err(_) => return Err(VaultError::AuthenticationFailure),
    };
    let nonce_arr = match <&aes_gcm::Nonce<_>>::try_from(nonce) {
        Ok(n) => n,
        Err(_) => return Err(VaultError::AuthenticationFailure),
    };
    match cipher.decrypt(nonce_arr, ciphertext) {
        Ok(pt) => Ok(pt),
        Err(_) => Err(VaultError::AuthenticationFailure),
    }
}

/// Relies on `SaltString::generate`: a freshly random
/// recommended-length salt, B64-encoded as 22 characters of the B64
/// alphabet, which salt validation accepts.
#[verifier::external_body]
pub fn generate_salt() -> (r: String)
    ensures
        r@.len() == 22,
        forall|i: int| 0 <= i < r@.len() ==> is_salt_char(#[trigger] r@[i]),
        salt_b64_ok(r@),
{
    let s = argon2::password_hash::phc::SaltString::generate();
    let t: &str = s.as_ref();
    t.to_owned()
}

/// Relies on `SaltString::from_b64`: whether the string is a valid
/// B64 salt encoding, a property of the string alone. A valid salt
/// string consists of 11 to 64 characters of the B64 alphabet.
#[verifier::external_body]
pub fn salt_is_valid(s: &str) -> (r: bool)
    ensures
        r == salt_b64_ok(s@),
        r ==> 11 <= s@.len() <= 64,
        r ==> forall|i: int| 0 <= i < s@.len() ==> is_salt_char(#[trigger] s@[i]),
{
    argon2::password_hash::phc::SaltString::from_b64(s).is_ok()
}

} // verus!
