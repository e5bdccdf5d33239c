//! Command handlers: validating and applying the add, retrieve and
//! delete operations on the collection, and producing the fresh
//! vault bytes that persist them. Printing and file writing are the
//! caller's concern.

use vstd::prelude::*;
use vstd::string::{StrSliceExecFns, StringExecFns};
use vstd::utf8::encode_utf8;
use crate::errors::CommandError;
use crate::models::{Credential, CredentialCollection, CredentialModel};
use crate::storage::{save, save_outcome};

verus! {

/// Whether the character counts as whitespace.
pub uninterp spec fn is_space(c: char) -> bool;

/// Relies on `char::is_whitespace`: whether the character has the
/// Unicode white-space property, a function of the character alone.
pub assume_specification[ char::is_whitespace ](c: char) -> (r: bool)
    ensures
        r == is_space(c),
;

/// Every character of the string is whitespace; in particular the
/// empty string is blank.
pub open spec fn spec_blank(s: Seq<char>) -> bool {
    forall|i: int| 0 <= i < s.len() ==> is_space(#[trigger] s[i])
}

/// The string holds an `@` somewhere.
pub open spec fn spec_has_at(s: Seq<char>) -> bool {
    exists|i: int| 0 <= i < s.len() && s[i] == '@'
}

/// Whether the string is empty or entirely whitespace.
fn is_blank(s: &String) -> (r: bool)
    ensures
        r == spec_blank(s@),
{
    let st = s.as_str();
    let n = st.unicode_len();
    let mut i: usize = 0;
    while i < n
        invariant
            st@ == s@,
            n == s@.len(),
            i <= n,
            forall|j: int| 0 <= j < i ==> is_space(#[trigger] s@[j]),
        decreases n - i,
    {
        let c = st.get_char(i);
        if !c.is_whitespace() {
            return false;
        }
        i = i + 1;
    }
    true
}

/// Whether the string holds an `@`.
fn contains_at(s: &String) -> (r: bool)
    ensures
        r == spec_has_at(s@),
{
    let st = s.as_str();
    let n = st.unicode_len();
    let mut i: usize = 0;
    while i < n
        invariant
            st@ == s@,
            n == s@.len(),
            i <= n,
            forall|j: int| 0 <= j < i ==> (#[trigger] s@[j]) != '@',
        decreases n - i,
    {
        if st.get_char(i) == '@' {
            return true;
        }
        i = i + 1;
    }
    false
}

/// What `save` reports through a command result.
pub open spec fn vault_save_outcome(
    pw: Seq<char>,
    creds: Seq<(Seq<char>, CredentialModel)>,
    salt_arg: Option<Seq<char>>,
    r: Result<Vec<u8>, CommandError>,
) -> bool {
    match r {
        Ok(b) => save_outcome(pw, creds, salt_arg, Ok(b)),
        Err(e) => match e {
            CommandError::Vault(v) => save_outcome(pw, creds, salt_arg, Err(v)),
            _ => false,
        },
    }
}

/// The view of an optional salt argument.
pub open spec fn salt_arg_view(existing_salt: Option<&String>) -> Option<Seq<char>> {
    match existing_salt {
        Some(s) => Some(s@),
        None => None,
    }
}

/// Validates and stores a credential under `service`, overwriting
/// any credential of that name, and returns the fresh vault bytes
/// that persist the change. A blank service name, a password of
/// fewer than eight bytes, or an email without `@` is rejected, in
/// that order, leaving the collection unchanged.
pub fn add(
    master_password: &str,
    service: &String,
    username: &String,
    email: &String,
    password: &String,
    creds: &mut CredentialCollection,
    existing_salt: Option<&String>,
) -> (r: Result<Vec<u8>, CommandError>)
    requires
        old(creds).wf(),
    ensures
        final(creds).wf(),
        spec_blank(service@) ==> r == Err::<Vec<u8>, CommandError>(CommandError::EmptyService)
            && final(creds)@ == old(creds)@,
        !spec_blank(service@) && encode_utf8(password@).len() < 8 ==> r == Err::<
            Vec<u8>,
            CommandError,
        >(CommandError::ShortPassword) && final(creds)@ == old(creds)@,
        !spec_blank(service@) && encode_utf8(password@).len() >= 8 && !spec_has_at(email@) ==> r
            == Err::<Vec<u8>, CommandError>(CommandError::InvalidEmail) && final(creds)@ == old(creds)@,
        !spec_blank(service@) && encode_utf8(password@).len() >= 8 && spec_has_at(email@) ==> ({
            &&& final(creds).as_map() == old(creds).as_map().insert(
                service@,
                CredentialModel { username: username@, email: email@, password: password@ },
            )
            &&& vault_save_outcome(
                master_password@,
                final(creds)@,
                salt_arg_view(existing_salt),
                r,
            )
        }),
{
    if is_blank(service) {
        return Err(CommandError::EmptyService);
    }
    if password.as_str().as_bytes().len() < 8 {
        return Err(CommandError::ShortPassword);
    }
    if !contains_at(email) {
        return Err(CommandError::InvalidEmail);
    }
    let adding = Credential {
        username: username.clone(),
        email: email.clone(),
        password: password.clone(),
    };
    creds.insert(service.clone(), adding);
    match save(master_password, creds, existing_salt) {
        Ok(b) => Ok(b),
        Err(e) => Err(CommandError::Vault(e)),
    }
}

/// Looks a credential up and words the report the caller prints.
pub fn retrieve<'a>(service: &String, creds: &'a CredentialCollection) -> (r: (
    Option<&'a Credential>,
    String,
))
    requires
        creds.wf(),
    ensures
        match r.0 {
            Some(c) => creds.as_map().contains_key(service@) && c@ == creds.as_map()[service@],
            None => !creds.as_map().contains_key(service@),
        },
        r.0 is Some ==> r.1@ == "Retrieved credentials for '"@ + service@ + "'"@,
        r.0 is None ==> r.1@ == "Service '"@ + service@ + "' not found"@,
{
    match creds.get(service) {
        Some(c) => {
            let msg = "Retrieved credentials for '".to_owned().concat(service.as_str()).concat(
                "'",
            );
            (Some(c), msg)
        },
        None => {
            let msg = "Service '".to_owned().concat(service.as_str()).concat("' not found");
            (None, msg)
        },
    }
}

/// Removes the credential stored under `service`, if any, persists
/// the remaining collection either way, and words the report the
/// caller prints.
pub fn delete(
    service: &String,
    creds: &mut CredentialCollection,
    master_password: &str,
    existing_salt: Option<&String>,
) -> (r: Result<(String, Vec<u8>), CommandError>)
    requires
        old(creds).wf(),
    ensures
        final(creds).wf(),
        final(creds).as_map() == old(creds).as_map().remove(service@),
        match r {
            Ok(p) => save_outcome(
                master_password@,
                final(creds)@,
                salt_arg_view(existing_salt),
                Ok(p.1),
            ),
            Err(e) => match e {
                CommandError::Vault(v) => save_outcome(
                    master_password@,
                    final(creds)@,
                    salt_arg_view(existing_salt),
                    Err(v),
                ),
                _ => false,
            },
        },
        old(creds).as_map().contains_key(service@) ==> (r matches Ok(p) ==> p.0@
            == "Service: "@ + service@ + " deleted"@),
        !old(creds).as_map().contains_key(service@) ==> (r matches Ok(p) ==> p.0@
            == "Service: "@ + service@ + " not found"@),
{
    let msg: String = if !creds.contains_key(service) {
        "Service: ".to_owned().concat(service.as_str()).concat(" not found")
    } else {
        creds.remove(service);
        "Service: ".to_owned().concat(service.as_str()).concat(" deleted")
    };
    proof {
        if !old(creds).as_map().contains_key(service@) {
            assert(old(creds).as_map().remove(service@) =~= old(creds).as_map());
        }
    }
    match save(master_password, creds, existing_salt) {
        Ok(b) => Ok((msg, b)),
        Err(e) => Err(CommandError::Vault(e)),
    }
}

} // verus!
