use pwmanager::codec::{decode_creds, decode_entry, encode_creds, encode_entry};
use pwmanager::models::{Credential, CredentialCollection, Entry, SubEntry};

fn cred(u: &str, e: &str, p: &str) -> Credential {
    Credential { username: u.to_string(), email: e.to_string(), password: p.to_string() }
}

fn assert_same_collections(a: &CredentialCollection, b: &CredentialCollection) {
    assert_eq!(a.len(), b.len());
    let mut i = 0;
    while i < a.len() {
        let (svc, c) = a.entry_at(i);
        let d = b.get(svc).expect("key missing after round trip");
        assert_eq!(c, d);
        i += 1;
    }
}

#[test]
fn creds_codec_empty_round_trip() {
    let c = CredentialCollection::new();
    let bytes = encode_creds(&c);
    let d = decode_creds(bytes.as_slice()).expect("decode failed");
    assert_eq!(d.len(), 0);
}

#[test]
fn creds_codec_single_round_trip() {
    let mut c = CredentialCollection::new();
    c.insert("github".to_string(), cred("alice", "a@x.com", "hunter22"));
    let bytes = encode_creds(&c);
    let d = decode_creds(bytes.as_slice()).expect("decode failed");
    assert_same_collections(&c, &d);
}

#[test]
fn creds_codec_many_round_trip() {
    let mut c = CredentialCollection::new();
    c.insert("github".to_string(), cred("alice", "a@x.com", "hunter22"));
    c.insert("mail".to_string(), cred("bob", "b@y.org", "s3cr3t-pw"));
    c.insert("bank".to_string(), cred("carol", "c@z.net", "pa55word!"));
    c.insert("".to_string(), cred("", "", ""));
    let bytes = encode_creds(&c);
    let d = decode_creds(bytes.as_slice()).expect("decode failed");
    assert_same_collections(&c, &d);
}

#[test]
fn creds_codec_overwrite_before_encode() {
    let mut c = CredentialCollection::new();
    c.insert("github".to_string(), cred("alice", "a@x.com", "hunter22"));
    c.insert("github".to_string(), cred("dan", "d@x.com", "other-pass"));
    assert_eq!(c.len(), 1);
    let bytes = encode_creds(&c);
    let d = decode_creds(bytes.as_slice()).expect("decode failed");
    assert_eq!(d.len(), 1);
    let got = d.get(&"github".to_string()).unwrap();
    assert_eq!(got.username, "dan");
}

#[test]
fn entry_codec_round_trip() {
    let entry = Entry {
        salt: "c2FsdHNhbHRzYWx0c2FsdA".to_string(),
        verify: vec![7u8; 32],
        sub_entry: SubEntry { nonce: vec![9u8; 12], cipher_text: vec![1, 2, 3, 4, 5] },
    };
    let bytes = encode_entry(&entry);
    let back = decode_entry(bytes.as_slice()).expect("decode failed");
    assert_eq!(back.salt, entry.salt);
    assert_eq!(back.verify, entry.verify);
    assert_eq!(back.sub_entry.nonce, entry.sub_entry.nonce);
    assert_eq!(back.sub_entry.cipher_text, entry.sub_entry.cipher_text);
}

#[test]
fn decode_entry_rejects_truncated() {
    let entry = Entry {
        salt: "c2FsdHNhbHRzYWx0c2FsdA".to_string(),
        verify: vec![7u8; 32],
        sub_entry: SubEntry { nonce: vec![9u8; 12], cipher_text: vec![1, 2, 3, 4, 5] },
    };
    let bytes = encode_entry(&entry);
    for cut in 0..bytes.len() {
        assert!(decode_entry(&bytes[..cut]).is_none(), "accepted a truncation at {}", cut);
    }
}

#[test]
fn decode_entry_rejects_trailing_garbage() {
    let entry = Entry {
        salt: "c2FsdHNhbHRzYWx0c2FsdA".to_string(),
        verify: vec![7u8; 32],
        sub_entry: SubEntry { nonce: vec![9u8; 12], cipher_text: vec![1, 2, 3] },
    };
    let mut bytes = encode_entry(&entry);
    bytes.push(0);
    assert!(decode_entry(bytes.as_slice()).is_none());
}

#[test]
fn decode_creds_rejects_arbitrary_garbage() {
    assert!(decode_creds(b"not a vault").is_none());
    assert!(decode_creds(&[0xffu8; 40]).is_none());
}

fn push_str_field(out: &mut Vec<u8>, s: &str) {
    out.extend_from_slice(&(s.len() as u64).to_le_bytes());
    out.extend_from_slice(s.as_bytes());
}

#[test]
fn decode_creds_rejects_duplicate_keys() {
    let mut raw: Vec<u8> = Vec::new();
    raw.extend_from_slice(&2u64.to_le_bytes());
    for _ in 0..2 {
        push_str_field(&mut raw, "github");
        push_str_field(&mut raw, "alice");
        push_str_field(&mut raw, "a@x.com");
        push_str_field(&mut raw, "hunter22");
    }
    assert!(decode_creds(raw.as_slice()).is_none());
}

#[test]
fn decode_creds_accepts_handwritten_encoding() {
    let mut raw: Vec<u8> = Vec::new();
    raw.extend_from_slice(&1u64.to_le_bytes());
    push_str_field(&mut raw, "github");
    push_str_field(&mut raw, "alice");
    push_str_field(&mut raw, "a@x.com");
    push_str_field(&mut raw, "hunter22");
    let d = decode_creds(raw.as_slice()).expect("decode failed");
    assert_eq!(d.len(), 1);
    let c = d.get(&"github".to_string()).unwrap();
    assert_eq!(c.username, "alice");
    assert_eq!(c.email, "a@x.com");
    assert_eq!(c.password, "hunter22");
}

#[test]
fn decode_creds_rejects_trailing_bytes() {
    let mut c = CredentialCollection::new();
    c.insert("github".to_string(), cred("alice", "a@x.com", "hunter22"));
    let mut bytes = encode_creds(&c);
    bytes.push(7);
    assert!(decode_creds(bytes.as_slice()).is_none());
}

#[test]
fn decode_creds_rejects_invalid_utf8() {
    let mut raw: Vec<u8> = Vec::new();
    raw.extend_from_slice(&1u64.to_le_bytes());
    raw.extend_from_slice(&2u64.to_le_bytes());
    raw.extend_from_slice(&[0xc3, 0x28]);
    push_str_field(&mut raw, "alice");
    push_str_field(&mut raw, "a@x.com");
    push_str_field(&mut raw, "hunter22");
    assert!(decode_creds(raw.as_slice()).is_none());
}
