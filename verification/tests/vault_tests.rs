use pwmanager::codec::decode_entry;
use pwmanager::crypto::{decrypt, derive_key, encrypt, generate_salt, salt_is_valid};
use pwmanager::errors::{CommandError, VaultError};
use pwmanager::handlers::{add, delete, retrieve};
use pwmanager::models::{Credential, CredentialCollection, Entry, SubEntry};
use pwmanager::storage::{load, save};

fn cred(u: &str, e: &str, p: &str) -> Credential {
    Credential { username: u.to_string(), email: e.to_string(), password: p.to_string() }
}

fn scenario_a_collection() -> CredentialCollection {
    let mut c = CredentialCollection::new();
    c.insert("github".to_string(), cred("alice", "a@x.com", "hunter22"));
    c
}

#[test]
fn encrypt_decrypt_round_trip() {
    let key = derive_key("Secr3t!23", b"0123456789abcdef").expect("derive failed");
    let plaintext = b"the quick brown fox".to_vec();
    let (ct, nonce) = encrypt(key.as_slice(), plaintext.as_slice()).expect("encrypt failed");
    assert_eq!(nonce.len(), 12);
    assert_eq!(ct.len(), plaintext.len() + 16);
    let back = decrypt(key.as_slice(), nonce.as_slice(), ct.as_slice()).expect("decrypt failed");
    assert_eq!(back, plaintext);
}

#[test]
fn derive_key_is_deterministic() {
    let k1 = derive_key("Secr3t!23", b"0123456789abcdef").unwrap();
    let k2 = derive_key("Secr3t!23", b"0123456789abcdef").unwrap();
    assert_eq!(k1, k2);
    assert_eq!(k1.len(), 32);
    let other_pw = derive_key("Secr3t!24", b"0123456789abcdef").unwrap();
    assert_ne!(k1, other_pw);
    let other_salt = derive_key("Secr3t!23", b"0123456789abcdeg").unwrap();
    assert_ne!(k1, other_salt);
}

#[test]
fn derive_key_rejects_short_salt() {
    assert!(derive_key("Secr3t!23", b"short").is_err());
}

#[test]
fn tampered_ciphertext_is_rejected() {
    let key = derive_key("Secr3t!23", b"0123456789abcdef").unwrap();
    let plaintext = b"attack at dawn".to_vec();
    let (ct, nonce) = encrypt(key.as_slice(), plaintext.as_slice()).unwrap();
    for i in 0..ct.len() {
        let mut bad = ct.clone();
        bad[i] ^= 1;
        let r = decrypt(key.as_slice(), nonce.as_slice(), bad.as_slice());
        assert_eq!(r.unwrap_err(), VaultError::AuthenticationFailure);
    }
}

#[test]
fn tampered_nonce_is_rejected() {
    let key = derive_key("Secr3t!23", b"0123456789abcdef").unwrap();
    let (ct, nonce) = encrypt(key.as_slice(), b"payload-bytes").unwrap();
    for i in 0..nonce.len() {
        let mut bad = nonce.clone();
        bad[i] ^= 0x80;
        let r = decrypt(key.as_slice(), bad.as_slice(), ct.as_slice());
        assert_eq!(r.unwrap_err(), VaultError::AuthenticationFailure);
    }
}

#[test]
fn wrong_key_is_rejected() {
    let key = derive_key("Secr3t!23", b"0123456789abcdef").unwrap();
    let other = derive_key("another-pw", b"0123456789abcdef").unwrap();
    let (ct, nonce) = encrypt(key.as_slice(), b"payload-bytes").unwrap();
    let r = decrypt(other.as_slice(), nonce.as_slice(), ct.as_slice());
    assert_eq!(r.unwrap_err(), VaultError::AuthenticationFailure);
}

#[test]
fn load_missing_or_empty_vault_is_empty() {
    let c = load("Secr3t!23", None).expect("load failed");
    assert_eq!(c.len(), 0);
    let empty: Vec<u8> = Vec::new();
    let c2 = load("Secr3t!23", Some(empty.as_slice())).expect("load failed");
    assert_eq!(c2.len(), 0);
}

#[test]
fn scenario_a_save_then_load() {
    let creds = scenario_a_collection();
    let bytes = save("Secr3t!23", &creds, None).expect("save failed");
    let back = load("Secr3t!23", Some(bytes.as_slice())).expect("load failed");
    assert_eq!(back.len(), 1);
    let c = back.get(&"github".to_string()).expect("entry missing");
    assert_eq!(c.username, "alice");
    assert_eq!(c.email, "a@x.com");
    assert_eq!(c.password, "hunter22");
}

#[test]
fn scenario_b_wrong_password() {
    let creds = scenario_a_collection();
    let bytes = save("Secr3t!23", &creds, None).expect("save failed");
    let snapshot = bytes.clone();
    let r = load("wrong-pass", Some(bytes.as_slice()));
    assert_eq!(r.unwrap_err(), VaultError::IncorrectPassword);
    assert_eq!(bytes, snapshot);
}

#[test]
fn scenario_c_corrupt_ciphertext_byte() {
    let creds = scenario_a_collection();
    let mut bytes = save("Secr3t!23", &creds, None).expect("save failed");
    // the ciphertext sits at the end of the record
    let last = bytes.len() - 1;
    bytes[last] ^= 1;
    let r = load("Secr3t!23", Some(bytes.as_slice()));
    assert_eq!(r.unwrap_err(), VaultError::AuthenticationFailure);
}

#[test]
fn scenario_d_salt_reuse_and_full_overwrite() {
    let first = scenario_a_collection();
    let bytes1 = save("Secr3t!23", &first, None).expect("save failed");
    let entry1 = decode_entry(bytes1.as_slice()).expect("decode failed");

    let mut second = CredentialCollection::new();
    second.insert("mail".to_string(), cred("bob", "b@y.org", "s3cr3t-pw"));
    let salt = entry1.salt.clone();
    let bytes2 = save("Secr3t!23", &second, Some(&salt)).expect("save failed");
    let entry2 = decode_entry(bytes2.as_slice()).expect("decode failed");

    assert_eq!(entry1.salt, entry2.salt);
    assert_eq!(entry1.verify, entry2.verify);

    let back = load("Secr3t!23", Some(bytes2.as_slice())).expect("load failed");
    assert_eq!(back.len(), 1);
    assert!(back.get(&"github".to_string()).is_none());
    assert!(back.get(&"mail".to_string()).is_some());
}

#[test]
fn load_rejects_malformed_record() {
    let r = load("Secr3t!23", Some(b"this is no vault record at all"));
    assert_eq!(r.unwrap_err(), VaultError::MalformedRecord);
}

#[test]
fn load_reports_corrupt_vault_after_verify_match() {
    let salt = generate_salt();
    let key = derive_key("Secr3t!23", salt.as_bytes()).unwrap();
    let (ct, nonce) = encrypt(key.as_slice(), b"not a credential encoding").unwrap();
    let entry = Entry { salt, verify: key, sub_entry: SubEntry { nonce, cipher_text: ct } };
    let bytes = pwmanager::codec::encode_entry(&entry);
    let r = load("Secr3t!23", Some(bytes.as_slice()));
    assert_eq!(r.unwrap_err(), VaultError::CorruptVault);
}

#[test]
fn salt_validation() {
    assert!(!salt_is_valid(""));
    assert!(!salt_is_valid("ab"));
    assert!(!salt_is_valid("white space is not b64!!"));
    let s = generate_salt();
    assert_eq!(s.len(), 22);
    assert!(salt_is_valid(s.as_str()));
}

#[test]
fn save_rejects_invalid_existing_salt() {
    let creds = scenario_a_collection();
    let bad = "!!".to_string();
    let r = save("Secr3t!23", &creds, Some(&bad));
    assert_eq!(r.unwrap_err(), VaultError::KeyDerivation);
}

#[test]
fn add_rejects_blank_service() {
    let mut creds = CredentialCollection::new();
    for svc in ["", "   ", "\t\n"] {
        let r = add(
            "Secr3t!23",
            &svc.to_string(),
            &"alice".to_string(),
            &"a@x.com".to_string(),
            &"hunter22".to_string(),
            &mut creds,
            None,
        );
        assert_eq!(r.unwrap_err(), CommandError::EmptyService);
    }
    assert_eq!(creds.len(), 0);
}

#[test]
fn add_rejects_short_password() {
    let mut creds = CredentialCollection::new();
    let r = add(
        "Secr3t!23",
        &"github".to_string(),
        &"alice".to_string(),
        &"a@x.com".to_string(),
        &"short".to_string(),
        &mut creds,
        None,
    );
    assert_eq!(r.unwrap_err(), CommandError::ShortPassword);
    assert_eq!(creds.len(), 0);
}

#[test]
fn add_rejects_invalid_email() {
    let mut creds = CredentialCollection::new();
    let r = add(
        "Secr3t!23",
        &"github".to_string(),
        &"alice".to_string(),
        &"not-an-email".to_string(),
        &"hunter22".to_string(),
        &mut creds,
        None,
    );
    assert_eq!(r.unwrap_err(), CommandError::InvalidEmail);
    assert_eq!(creds.len(), 0);
}

#[test]
fn add_persists_and_retrieve_reports() {
    let mut creds = CredentialCollection::new();
    let bytes = add(
        "Secr3t!23",
        &"github".to_string(),
        &"alice".to_string(),
        &"a@x.com".to_string(),
        &"hunter22".to_string(),
        &mut creds,
        None,
    )
    .expect("add failed");
    let back = load("Secr3t!23", Some(bytes.as_slice())).expect("load failed");
    assert!(back.get(&"github".to_string()).is_some());

    let (found, msg) = retrieve(&"github".to_string(), &creds);
    assert!(found.is_some());
    assert_eq!(msg, "Retrieved credentials for 'github'");

    let (missing, msg2) = retrieve(&"absent".to_string(), &creds);
    assert!(missing.is_none());
    assert_eq!(msg2, "Service 'absent' not found");
}

#[test]
fn delete_reports_and_persists() {
    let mut creds = scenario_a_collection();
    let (msg, bytes) = delete(&"github".to_string(), &mut creds, "Secr3t!23", None)
        .expect("delete failed");
    assert_eq!(msg, "Service: github deleted");
    assert_eq!(creds.len(), 0);
    let back = load("Secr3t!23", Some(bytes.as_slice())).expect("load failed");
    assert_eq!(back.len(), 0);

    let (msg2, _) = delete(&"github".to_string(), &mut creds, "Secr3t!23", None)
        .expect("delete failed");
    assert_eq!(msg2, "Service: github not found");
}

#[test]
fn collection_insert_overwrites_and_removes() {
    let mut c = CredentialCollection::new();
    c.insert("svc".to_string(), cred("u1", "e1@x", "p1-longer"));
    c.insert("svc".to_string(), cred("u2", "e2@x", "p2-longer"));
    assert_eq!(c.len(), 1);
    assert_eq!(c.get(&"svc".to_string()).unwrap().username, "u2");
    assert!(c.contains_key(&"svc".to_string()));
    c.remove(&"svc".to_string());
    assert_eq!(c.len(), 0);
    assert!(!c.contains_key(&"svc".to_string()));
}
