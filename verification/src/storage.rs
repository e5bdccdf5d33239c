//! The vault store: loading a credential collection from the raw
//! bytes of the vault file, and producing the raw bytes of a fresh
//! record on save. Reading and writing the file itself is the
//! caller's concern; the password gate, the key handling and the
//! record format live here.

use vstd::prelude::*;
use vstd::utf8::{encode_utf8, is_ascii_chars, is_ascii_chars_encode_utf8};
use crate::codec::{
    decode_creds, decode_entry, encode_creds, encode_entry, entries_ok, lemma_creds_round_trip,
    lemma_entry_round_trip, spec_decode_creds, spec_decode_entry, spec_encode_creds,
    spec_encode_entry, str_ok,
};
use crate::models::keys_distinct;
use crate::crypto::{
    argon2_key, decrypt, derive_key, encrypt, gcm_seal, generate_salt, max_plaintext_len,
    salt_b64_ok, salt_is_valid,
};
use crate::errors::VaultError;
use crate::models::{CredentialCollection, CredentialModel, Entry, EntryModel, SubEntry,
    SubEntryModel};

verus! {

/// The bytes the key is derived from: the UTF-8 encoding of the salt
/// string.
pub open spec fn salt_bytes(salt: Seq<char>) -> Seq<u8> {
    encode_utf8(salt)
}

/// What loading a decoded record with a derived key returns: the
/// password gate first, decryption and decoding only after it.
pub open spec fn sealed_load_outcome(
    key: Seq<u8>,
    e: EntryModel,
    r: Result<CredentialCollection, VaultError>,
) -> bool {
    if key != e.verify {
        r == Err::<CredentialCollection, VaultError>(VaultError::IncorrectPassword)
    } else if forall|p: Seq<u8>|
        p.len() <= max_plaintext_len() ==> e.sub_entry.cipher_text != gcm_seal(
            key,
            e.sub_entry.nonce,
            p,
        ) {
        r == Err::<CredentialCollection, VaultError>(VaultError::AuthenticationFailure)
    } else {
        exists|p: Seq<u8>|
            p.len() <= max_plaintext_len() && e.sub_entry.cipher_text == gcm_seal(
                key,
                e.sub_entry.nonce,
                p,
            ) && match spec_decode_creds(p) {
                Some(es) => r matches Ok(c) && c@ == es,
                None => r == Err::<CredentialCollection, VaultError>(VaultError::CorruptVault),
            }
    }
}

/// What `load` returns, for every password and raw input.
pub open spec fn load_outcome(
    pw: Seq<char>,
    raw: Option<Seq<u8>>,
    r: Result<CredentialCollection, VaultError>,
) -> bool {
    match raw {
        None => r matches Ok(c) && c@ == Seq::<(Seq<char>, CredentialModel)>::empty(),
        Some(b) => if b.len() == 0 {
            r matches Ok(c) && c@ == Seq::<(Seq<char>, CredentialModel)>::empty()
        } else {
            match spec_decode_entry(b) {
                None => r == Err::<CredentialCollection, VaultError>(VaultError::MalformedRecord),
                Some(e) => if !salt_b64_ok(e.salt) {
                    r == Err::<CredentialCollection, VaultError>(VaultError::MalformedRecord)
                } else {
                    // key derivation can fail only for want of memory
                    r == Err::<CredentialCollection, VaultError>(VaultError::KeyDerivation)
                        || sealed_load_outcome(argon2_key(pw, salt_bytes(e.salt)), e, r)
                },
            }
        },
    }
}

/// Whether the two byte strings are equal.
fn bytes_equal(a: &[u8], b: &[u8]) -> (r: bool)
    ensures
        r == (a@ == b@),
{
    if a.len() != b.len() {
        return false;
    }
    let n = a.len();
    let mut i: usize = 0;
    while i < n
        invariant
            n == a@.len(),
            n == b@.len(),
            i <= n,
            forall|j: int| 0 <= j < i ==> a@[j] == b@[j],
        decreases n - i,
    {
        if a[i] != b[i] {
            return false;
        }
        i = i + 1;
    }
    proof {
        assert(a@ =~= b@);
    }
    true
}

/// Opens a decoded record with an already derived key: compares the
/// key to the stored verifier — a mismatch is an incorrect password,
/// and nothing is decrypted — then decrypts and decodes the
/// credential collection.
pub fn open_sealed(key: &[u8], entry: &Entry) -> (r: Result<CredentialCollection, VaultError>)
    requires
        key@.len() == 32,
        entry.wf(),
    ensures
        sealed_load_outcome(key@, entry@, r),
        r matches Err(e) ==> (e == VaultError::IncorrectPassword || e
            == VaultError::AuthenticationFailure || e == VaultError::CorruptVault),
{
    if !bytes_equal(key, entry.verify.as_slice()) {
        return Err(VaultError::IncorrectPassword);
    }
    match decrypt(key, entry.sub_entry.nonce.as_slice(), entry.sub_entry.cipher_text.as_slice()) {
        Err(_) => Err(VaultError::AuthenticationFailure),
        Ok(pt) => {
            proof {
                assert(entry@.sub_entry.cipher_text == gcm_seal(
                    key@,
                    entry@.sub_entry.nonce,
                    pt@,
                ));
            }
            match decode_creds(pt.as_slice()) {
                Some(c) => {
                    proof {
                        let p = pt@;
                        assert(entry@.sub_entry.cipher_text == gcm_seal(
                            key@,
                            entry@.sub_entry.nonce,
                            p,
                        ) && match spec_decode_creds(p) {
                            Some(es) => c@ == es,
                            None => false,
                        });
                    }
                    Ok(c)
                },
                None => {
                    proof {
                        let p = pt@;
                        assert(entry@.sub_entry.cipher_text == gcm_seal(
                            key@,
                            entry@.sub_entry.nonce,
                            p,
                        ) && spec_decode_creds(p) is None);
                    }
                    Err(VaultError::CorruptVault)
                },
            }
        },
    }
}

/// Loads the credential collection from the raw vault bytes. A
/// missing or empty file yields the empty collection without reading
/// anything further; otherwise the record is decoded, the key is
/// re-derived from the stored salt, the password is verified against
/// the stored verifier before any decryption, and only then is the
/// collection decrypted and decoded.
pub fn load(master_password: &str, raw: Option<&[u8]>) -> (r: Result<
    CredentialCollection,
    VaultError,
>)
    ensures
        load_outcome(
            master_password@,
            match raw {
                Some(b) => Some(b@),
                None => None,
            },
            r,
        ),
{
    let b = match raw {
        None => {
            return Ok(CredentialCollection::new());
        },
        Some(b) => b,
    };
    if b.len() == 0 {
        return Ok(CredentialCollection::new());
    }
    let entry = match decode_entry(b) {
        None => {
            return Err(VaultError::MalformedRecord);
        },
        Some(e) => e,
    };
    if !salt_is_valid(entry.salt.as_str()) {
        return Err(VaultError::MalformedRecord);
    }
    proof {
        assert(is_ascii_chars(entry.salt@));
        is_ascii_chars_encode_utf8(entry.salt@);
    }
    let key = match derive_key(master_password, entry.salt.as_str().as_bytes()) {
        Ok(k) => k,
        Err(e) => {
            return Err(e);
        },
    };
    open_sealed(key.as_slice(), &entry)
}

/// The record one save builds from a key: the salt, the key as
/// verifier, and the collection's encoding sealed under the key and
/// the given nonce.
pub open spec fn sealed_record(
    key: Seq<u8>,
    creds: Seq<(Seq<char>, CredentialModel)>,
    salt: Seq<char>,
    nonce: Seq<u8>,
) -> EntryModel {
    EntryModel {
        salt: salt,
        verify: key,
        sub_entry: SubEntryModel {
            nonce: nonce,
            cipher_text: gcm_seal(key, nonce, spec_encode_creds(creds)),
        },
    }
}

/// The record that one save writes: `sealed_record` under the key
/// that the password and salt derive.
pub open spec fn saved_entry(
    pw: Seq<char>,
    creds: Seq<(Seq<char>, CredentialModel)>,
    salt: Seq<char>,
    nonce: Seq<u8>,
) -> EntryModel {
    sealed_record(argon2_key(pw, salt_bytes(salt)), creds, salt, nonce)
}

/// The collection's encoding exceeds what the cipher accepts.
pub open spec fn payload_oversize(creds: Seq<(Seq<char>, CredentialModel)>) -> bool {
    spec_encode_creds(creds).len() > max_plaintext_len() || spec_encode_creds(creds).len() + 16
        > usize::MAX
}

/// What `save` returns once its salt string is fixed.
pub open spec fn saved_with_salt(
    pw: Seq<char>,
    creds: Seq<(Seq<char>, CredentialModel)>,
    salt: Seq<char>,
    r: Result<Vec<u8>, VaultError>,
) -> bool {
    // key derivation can fail only for want of memory
    ||| r == Err::<Vec<u8>, VaultError>(VaultError::KeyDerivation)
    ||| (payload_oversize(creds) && r == Err::<Vec<u8>, VaultError>(VaultError::MalformedRecord))
    ||| (!payload_oversize(creds) && (r matches Ok(b) && exists|n: Seq<u8>|
        n.len() == 12 && b@ == #[trigger] spec_encode_entry(saved_entry(pw, creds, salt, n))))
}

/// What `save` returns, for every password, collection and optional
/// salt.
pub open spec fn save_outcome(
    pw: Seq<char>,
    creds: Seq<(Seq<char>, CredentialModel)>,
    salt_arg: Option<Seq<char>>,
    r: Result<Vec<u8>, VaultError>,
) -> bool {
    match salt_arg {
        Some(s) => if !salt_b64_ok(s) {
            r == Err::<Vec<u8>, VaultError>(VaultError::KeyDerivation)
        } else {
            saved_with_salt(pw, creds, s, r)
        },
        None => {
            ||| r == Err::<Vec<u8>, VaultError>(VaultError::KeyDerivation)
            ||| exists|s: Seq<char>| #[trigger] salt_b64_ok(s) && saved_with_salt(pw, creds, s, r)
        },
    }
}

/// Produces the raw bytes of a fresh vault record holding the
/// collection: the existing salt is kept if one is supplied — so the
/// same password derives the same key — else a fresh random salt is
/// generated; the key is derived, the collection encoded and sealed
/// under a fresh random nonce, and the whole record encoded. The
/// caller replaces the vault file with these bytes in full. A
/// collection whose encoding exceeds what the cipher accepts is
/// rejected as malformed.
pub fn save(master_password: &str, creds: &CredentialCollection, existing_salt: Option<&String>) -> (r:
    Result<Vec<u8>, VaultError>)
    ensures
        save_outcome(
            master_password@,
            creds@,
            match existing_salt {
                Some(s) => Some(s@),
                None => None,
            },
            r,
        ),
{
    let salt: String = match existing_salt {
        Some(s) => {
            if !salt_is_valid(s.as_str()) {
                return Err(VaultError::KeyDerivation);
            }
            s.clone()
        },
        None => generate_salt(),
    };
    proof {
        assert(is_ascii_chars(salt@));
        is_ascii_chars_encode_utf8(salt@);
    }
    let key = match derive_key(master_password, salt.as_str().as_bytes()) {
        Ok(k) => k,
        Err(e) => {
            return Err(e);
        },
    };
    let ghost salt_view = salt@;
    let ghost key_view = key@;
    match seal_collection(key, salt, creds) {
        Ok(b) => {
            proof {
                let n = choose|n: Seq<u8>|
                    n.len() == 12 && b@ == #[trigger] spec_encode_entry(
                        sealed_record(key_view, creds@, salt_view, n),
                    );
                assert(b@ == spec_encode_entry(
                    saved_entry(master_password@, creds@, salt_view, n),
                ));
            }
            Ok(b)
        },
        Err(e) => Err(e),
    }
}

/// Builds the encoded record for an already derived key: the
/// collection is encoded, sealed under the key and a fresh random
/// nonce, and wrapped with the salt and the key as verifier. Fails
/// exactly when the encoding exceeds what the cipher accepts.
pub fn seal_collection(key: Vec<u8>, salt: String, creds: &CredentialCollection) -> (r: Result<
    Vec<u8>,
    VaultError,
>)
    requires
        key@.len() == 32,
    ensures
        payload_oversize(creds@) <==> r == Err::<Vec<u8>, VaultError>(VaultError::MalformedRecord),
        !payload_oversize(creds@) ==> (r matches Ok(b) && exists|n: Seq<u8>|
            n.len() == 12 && b@ == #[trigger] spec_encode_entry(sealed_record(key@, creds@, salt@, n))),
{
    let plaintext = encode_creds(creds);
    if (plaintext.len() as u64) > 0xF_FFFF_FFE0u64 || (plaintext.len() as u64) > (usize::MAX
        as u64) - 16 {
        return Err(VaultError::MalformedRecord);
    }
    let (cipher_text, nonce) = match encrypt(key.as_slice(), plaintext.as_slice()) {
        Ok(p) => p,
        Err(e) => {
            return Err(e);
        },
    };
    let ghost nonce_view = nonce@;
    let ghost key_view = key@;
    let entry = Entry { salt, verify: key, sub_entry: SubEntry { nonce, cipher_text } };
    let bytes = encode_entry(&entry);
    proof {
        assert(bytes@ == spec_encode_entry(
            sealed_record(key_view, creds@, entry.salt@, nonce_view),
        ));
    }
    Ok(bytes)
}

/// Saving and loading round-trip, at the record level: the record a
/// save builds decodes back to itself, and opening it with the key
/// derived from the same password and salt passes the password gate
/// and yields exactly the collection that was saved.
pub proof fn lemma_saved_record_loads_back(
    pw: Seq<char>,
    creds: Seq<(Seq<char>, CredentialModel)>,
    salt: Seq<char>,
    nonce: Seq<u8>,
    c: CredentialCollection,
)
    requires
        entries_ok(creds),
        creds.len() <= u64::MAX,
        keys_distinct(creds),
        str_ok(salt),
        nonce.len() == 12,
        argon2_key(pw, salt_bytes(salt)).len() == 32,
        !payload_oversize(creds),
        gcm_seal(argon2_key(pw, salt_bytes(salt)), nonce, spec_encode_creds(creds)).len()
            <= u64::MAX,
        c@ == creds,
    ensures
        spec_decode_entry(spec_encode_entry(saved_entry(pw, creds, salt, nonce))) == Some(
            saved_entry(pw, creds, salt, nonce),
        ),
        sealed_load_outcome(argon2_key(pw, salt_bytes(salt)), saved_entry(pw, creds, salt, nonce), Ok(c)),
{
    let key = argon2_key(pw, salt_bytes(salt));
    let e = saved_entry(pw, creds, salt, nonce);
    lemma_entry_round_trip(e);
    lemma_creds_round_trip(creds);
    assert(spec_encode_creds(creds).len() <= max_plaintext_len() && e.sub_entry.cipher_text
        == gcm_seal(key, e.sub_entry.nonce, spec_encode_creds(creds)) && match spec_decode_creds(
        spec_encode_creds(creds),
    ) {
        Some(es) => c@ == es,
        None => false,
    });
}

} // verus!
