//! Deterministic binary codec for the vault record and the credential
//! collection: length-prefixed fields, each prefix an 8-byte
//! little-endian count, strings stored as UTF-8. Decoding is
//! defensive: any truncated or structurally invalid input is rejected
//! rather than panicked on, and a byte-exact round trip is proved.

use vstd::prelude::*;
use vstd::bytes::{
    lemma_auto_spec_u64_to_from_le_bytes, spec_u64_from_le_bytes, spec_u64_to_le_bytes,
    u64_from_le_bytes, u64_to_le_bytes,
};
use vstd::slice::{slice_subrange, slice_to_vec};
use vstd::utf8::{decode_utf8, encode_utf8, encode_utf8_decode_utf8, encode_utf8_valid_utf8,
    valid_utf8};
use crate::models::{
    keys_distinct, pairs_view, Credential, CredentialCollection, CredentialModel, Entry,
    EntryModel, SubEntry, SubEntryModel,
};

verus! {

/// The UTF-8 encoding of the string fits under an 8-byte length
/// prefix; every string that fits in memory satisfies this.
pub open spec fn str_ok(s: Seq<char>) -> bool {
    encode_utf8(s).len() <= u64::MAX
}

/// A string is stored as its UTF-8 byte length followed by its bytes.
pub open spec fn spec_encode_str(s: Seq<char>) -> Seq<u8> {
    spec_u64_to_le_bytes(encode_utf8(s).len() as u64) + encode_utf8(s)
}

/// Reads an 8-byte little-endian count at `pos`.
pub open spec fn spec_read_u64(b: Seq<u8>, pos: int) -> Option<(u64, int)> {
    if 0 <= pos && pos + 8 <= b.len() {
        Some((spec_u64_from_le_bytes(b.subrange(pos, pos + 8)), pos + 8))
    } else {
        None
    }
}

/// Reads `n` raw bytes at `pos`.
pub open spec fn spec_read_bytes(b: Seq<u8>, pos: int, n: int) -> Option<(Seq<u8>, int)> {
    if 0 <= pos && 0 <= n && pos + n <= b.len() {
        Some((b.subrange(pos, pos + n), pos + n))
    } else {
        None
    }
}

/// Reads a length-prefixed UTF-8 string at `pos`.
pub open spec fn spec_read_str(b: Seq<u8>, pos: int) -> Option<(Seq<char>, int)> {
    match spec_read_u64(b, pos) {
        None => None,
        Some((n, p)) => {
            if p + n <= b.len() && valid_utf8(b.subrange(p, p + n)) {
                Some((decode_utf8(b.subrange(p, p + n)), p + n))
            } else {
                None
            }
        },
    }
}

/// Reading at an encoded count yields that count.
pub proof fn lemma_read_u64_of_encode(b: Seq<u8>, pos: int, x: u64)
    requires
        0 <= pos,
        pos + 8 <= b.len(),
        b.subrange(pos, pos + 8) == spec_u64_to_le_bytes(x),
    ensures
        spec_read_u64(b, pos) == Some((x, pos + 8)),
{
    lemma_auto_spec_u64_to_from_le_bytes();
}

/// Reading at an encoded string yields that string.
pub proof fn lemma_read_str_of_encode(b: Seq<u8>, pos: int, s: Seq<char>)
    requires
        0 <= pos,
        str_ok(s),
        pos + spec_encode_str(s).len() <= b.len(),
        b.subrange(pos, pos + spec_encode_str(s).len()) == spec_encode_str(s),
    ensures
        spec_read_str(b, pos) == Some((s, pos + spec_encode_str(s).len())),
{
    lemma_auto_spec_u64_to_from_le_bytes();
    let e = encode_utf8(s);
    let n = e.len() as int;
    let le = spec_u64_to_le_bytes(n as u64);
    assert(le.len() == 8);
    assert(spec_encode_str(s).len() == 8 + n);
    assert(b.subrange(pos, pos + 8) =~= le) by {
        assert forall|i: int| 0 <= i < 8 implies b.subrange(pos, pos + 8)[i] == le[i] by {
            assert(b.subrange(pos, pos + spec_encode_str(s).len())[i] == (le + e)[i]);
        }
    }
    lemma_read_u64_of_encode(b, pos, n as u64);
    assert(b.subrange(pos + 8, pos + 8 + n) =~= e) by {
        assert forall|i: int| 0 <= i < n implies b.subrange(pos + 8, pos + 8 + n)[i] == e[i] by {
            assert(b.subrange(pos, pos + spec_encode_str(s).len())[8 + i] == (le + e)[8 + i]);
        }
    }
    encode_utf8_valid_utf8(s);
    encode_utf8_decode_utf8(s);
}

/// Appends an 8-byte little-endian count.
fn write_u64(out: &mut Vec<u8>, x: u64)
    ensures
        final(out)@ == old(out)@ + spec_u64_to_le_bytes(x),
{
    let mut v = u64_to_le_bytes(x);
    out.append(&mut v);
}

/// Appends a length-prefixed UTF-8 string.
fn write_str(out: &mut Vec<u8>, s: &String)
    ensures
        final(out)@ == old(out)@ + spec_encode_str(s@),
{
    let ghost o = out@;
    let bytes = s.as_str().as_bytes();
    write_u64(out, bytes.len() as u64);
    out.extend_from_slice(bytes);
    proof {
        assert(out@ =~= o + spec_encode_str(s@));
    }
}

/// Relies on `String::from_utf8`: it succeeds exactly on valid UTF-8
/// input, and then returns the string whose encoding is that input.
#[verifier::external_body]
fn vec_to_string(v: Vec<u8>) -> (r: Option<String>)
    ensures
        r is Some <==> valid_utf8(v@),
        r matches Some(s) ==> encode_utf8(s@) == v@,
{
    String::from_utf8(v).ok()
}

/// Reads an 8-byte little-endian count, as `spec_read_u64` says.
fn read_u64_at(b: &[u8], pos: usize) -> (r: Option<(u64, usize)>)
    ensures
        match r {
            Some(p) => spec_read_u64(b@, pos as int) == Some((p.0, p.1 as int)),
            None => spec_read_u64(b@, pos as int) is None,
        },
{
    if pos <= b.len() && b.len() - pos >= 8 {
        let s = slice_subrange(b, pos, pos + 8);
        let x = u64_from_le_bytes(s);
        Some((x, pos + 8))
    } else {
        None
    }
}

/// Reads a length-prefixed UTF-8 string, as `spec_read_str` says.
fn read_str_at(b: &[u8], pos: usize) -> (r: Option<(String, usize)>)
    ensures
        match r {
            Some(p) => spec_read_str(b@, pos as int) == Some((p.0@, p.1 as int)),
            None => spec_read_str(b@, pos as int) is None,
        },
{
    match read_u64_at(b, pos) {
        None => None,
        Some((n, p)) => {
            if n <= (b.len() - p) as u64 {
                let end = p + (n as usize);
                let sl = slice_subrange(b, p, end);
                let v = slice_to_vec(sl);
                match vec_to_string(v) {
                    Some(st) => {
                        proof {
                            encode_utf8_decode_utf8(st@);
                        }
                        Some((st, end))
                    },
                    None => None,
                }
            } else {
                None
            }
        },
    }
}

/// Splitting a subrange known to equal a concatenation.
proof fn lemma_split_prefix(b: Seq<u8>, pos: int, x: Seq<u8>, y: Seq<u8>)
    requires
        0 <= pos,
        pos + x.len() + y.len() <= b.len(),
        b.subrange(pos, pos + x.len() + y.len()) == x + y,
    ensures
        b.subrange(pos, pos + x.len()) =~= x,
        b.subrange(pos + x.len(), pos + x.len() + y.len()) =~= y,
{
    assert forall|i: int| 0 <= i < x.len() implies b.subrange(pos, pos + x.len())[i] == x[i] by {
        assert(b.subrange(pos, pos + x.len() + y.len())[i] == (x + y)[i]);
    }
    assert forall|i: int| 0 <= i < y.len() implies b.subrange(
        pos + x.len(),
        pos + x.len() + y.len(),
    )[i] == y[i] by {
        assert(b.subrange(pos + x.len(), pos + x.len() + y.len())[i] == b[pos + x.len() + i]);
        assert(b.subrange(pos, pos + x.len() + y.len())[x.len() + i] == b[pos + x.len() + i]);
        assert((x + y)[x.len() + i] == y[i]);
    }
}

/// All three fields of the credential fit under a length prefix.
pub open spec fn cred_ok(c: CredentialModel) -> bool {
    str_ok(c.username) && str_ok(c.email) && str_ok(c.password)
}

/// A credential is stored as its three strings in order.
pub open spec fn spec_encode_credential(c: CredentialModel) -> Seq<u8> {
    spec_encode_str(c.username) + spec_encode_str(c.email) + spec_encode_str(c.password)
}

/// A named credential is stored as the service name followed by the
/// credential.
pub open spec fn spec_encode_pair(k: Seq<char>, c: CredentialModel) -> Seq<u8> {
    spec_encode_str(k) + spec_encode_credential(c)
}

/// Reads a service name and credential at `pos`.
pub open spec fn spec_read_pair(b: Seq<u8>, pos: int) -> Option<
    ((Seq<char>, CredentialModel), int),
> {
    match spec_read_str(b, pos) {
        None => None,
        Some((k, p1)) => match spec_read_str(b, p1) {
            None => None,
            Some((u, p2)) => match spec_read_str(b, p2) {
                None => None,
                Some((m, p3)) => match spec_read_str(b, p3) {
                    None => None,
                    Some((w, p4)) => Some(
                        ((k, CredentialModel { username: u, email: m, password: w }), p4),
                    ),
                },
            },
        },
    }
}

/// Reading at an encoded named credential yields it.
pub proof fn lemma_read_pair_of_encode(b: Seq<u8>, pos: int, k: Seq<char>, c: CredentialModel)
    requires
        0 <= pos,
        str_ok(k),
        cred_ok(c),
        pos + spec_encode_pair(k, c).len() <= b.len(),
        b.subrange(pos, pos + spec_encode_pair(k, c).len()) == spec_encode_pair(k, c),
    ensures
        spec_read_pair(b, pos) == Some(((k, c), pos + spec_encode_pair(k, c).len())),
{
    let ek = spec_encode_str(k);
    let eu = spec_encode_str(c.username);
    let em = spec_encode_str(c.email);
    let ew = spec_encode_str(c.password);
    let ec = spec_encode_credential(c);
    lemma_split_prefix(b, pos, ek, ec);
    lemma_read_str_of_encode(b, pos, k);
    let p1 = pos + ek.len();
    assert(b.subrange(p1, p1 + ec.len()) == (eu + em) + ew);
    lemma_split_prefix(b, p1, eu + em, ew);
    assert(b.subrange(p1, p1 + eu.len() + em.len()) == eu + em);
    lemma_split_prefix(b, p1, eu, em);
    lemma_read_str_of_encode(b, p1, c.username);
    let p2 = p1 + eu.len();
    lemma_read_str_of_encode(b, p2, c.email);
    let p3 = p2 + em.len();
    lemma_read_str_of_encode(b, p3, c.password);
}

/// Every string in the entry sequence fits under a length prefix.
pub open spec fn entries_ok(s: Seq<(Seq<char>, CredentialModel)>) -> bool {
    forall|i: int|
        0 <= i < s.len() ==> str_ok((#[trigger] s[i]).0) && cred_ok(s[i].1)
}

/// The entry sequence is stored as its encoded pairs in order.
pub open spec fn spec_encode_entries(s: Seq<(Seq<char>, CredentialModel)>) -> Seq<u8>
    decreases s.len(),
{
    if s.len() == 0 {
        Seq::empty()
    } else {
        spec_encode_pair(s[0].0, s[0].1) + spec_encode_entries(s.drop_first())
    }
}

/// Reads `n` named credentials at `pos`.
pub open spec fn spec_read_entries(b: Seq<u8>, pos: int, n: nat) -> Option<
    (Seq<(Seq<char>, CredentialModel)>, int),
>
    decreases n,
{
    if n == 0 {
        Some((Seq::empty(), pos))
    } else {
        match spec_read_pair(b, pos) {
            None => None,
            Some((pr, p2)) => match spec_read_entries(b, p2, (n - 1) as nat) {
                None => None,
                Some((rest, p3)) => Some((seq![pr] + rest, p3)),
            },
        }
    }
}

/// Reading at an encoded entry sequence yields it.
pub proof fn lemma_read_entries_of_encode(
    b: Seq<u8>,
    pos: int,
    s: Seq<(Seq<char>, CredentialModel)>,
)
    requires
        0 <= pos,
        entries_ok(s),
        pos + spec_encode_entries(s).len() <= b.len(),
        b.subrange(pos, pos + spec_encode_entries(s).len()) == spec_encode_entries(s),
    ensures
        spec_read_entries(b, pos, s.len() as nat) == Some(
            (s, pos + spec_encode_entries(s).len()),
        ),
    decreases s.len(),
{
    if s.len() > 0 {
        let ep = spec_encode_pair(s[0].0, s[0].1);
        let er = spec_encode_entries(s.drop_first());
        lemma_split_prefix(b, pos, ep, er);
        lemma_read_pair_of_encode(b, pos, s[0].0, s[0].1);
        assert(entries_ok(s.drop_first())) by {
            assert forall|i: int| 0 <= i < s.drop_first().len() implies str_ok(
                (#[trigger] s.drop_first()[i]).0,
            ) && cred_ok(s.drop_first()[i].1) by {
                assert(s.drop_first()[i] == s[i + 1]);
            }
        }
        lemma_read_entries_of_encode(b, pos + ep.len(), s.drop_first());
        assert(seq![s[0]] + s.drop_first() =~= s);
    }
}

/// Appending one pair to the sequence appends its encoding.
pub proof fn lemma_encode_entries_snoc(
    s: Seq<(Seq<char>, CredentialModel)>,
    x: (Seq<char>, CredentialModel),
)
    ensures
        spec_encode_entries(s.push(x)) =~= spec_encode_entries(s) + spec_encode_pair(x.0, x.1),
    decreases s.len(),
{
    let ep = spec_encode_pair(x.0, x.1);
    if s.len() == 0 {
        assert(s.push(x)[0] == x);
        assert(s.push(x).drop_first() =~= Seq::<(Seq<char>, CredentialModel)>::empty());
        assert(spec_encode_entries(Seq::<(Seq<char>, CredentialModel)>::empty())
            == Seq::<u8>::empty());
        assert(spec_encode_entries(s.push(x)) =~= ep);
        assert(spec_encode_entries(s) + ep =~= ep);
    } else {
        assert(s.push(x)[0] == s[0]);
        assert(s.push(x).drop_first() =~= s.drop_first().push(x));
        lemma_encode_entries_snoc(s.drop_first(), x);
        let e0 = spec_encode_pair(s[0].0, s[0].1);
        assert(spec_encode_entries(s.push(x)) == e0 + spec_encode_entries(s.drop_first().push(x)));
        assert(e0 + (spec_encode_entries(s.drop_first()) + ep) =~= (e0 + spec_encode_entries(
            s.drop_first(),
        )) + ep);
    }
}

/// A credential collection is stored as its size followed by its
/// entries.
pub open spec fn spec_encode_creds(s: Seq<(Seq<char>, CredentialModel)>) -> Seq<u8> {
    spec_u64_to_le_bytes(s.len() as u64) + spec_encode_entries(s)
}

/// Decodes a whole credential collection: the declared number of
/// entries must be present, fill the input exactly, and carry
/// pairwise-distinct service names.
pub open spec fn spec_decode_creds(b: Seq<u8>) -> Option<Seq<(Seq<char>, CredentialModel)>> {
    match spec_read_u64(b, 0) {
        None => None,
        Some((n, p)) => match spec_read_entries(b, p, n as nat) {
            None => None,
            Some((es, end)) => if end == b.len() && keys_distinct(es) {
                Some(es)
            } else {
                None
            },
        },
    }
}

/// Codec round trip for credential collections: decoding an encoded
/// collection yields exactly that collection, whatever its size.
pub proof fn lemma_creds_round_trip(s: Seq<(Seq<char>, CredentialModel)>)
    requires
        entries_ok(s),
        s.len() <= u64::MAX,
        keys_distinct(s),
    ensures
        spec_decode_creds(spec_encode_creds(s)) == Some(s),
{
    let b = spec_encode_creds(s);
    let le = spec_u64_to_le_bytes(s.len() as u64);
    lemma_auto_spec_u64_to_from_le_bytes();
    assert(b.subrange(0, b.len() as int) =~= le + spec_encode_entries(s));
    lemma_split_prefix(b, 0, le, spec_encode_entries(s));
    lemma_read_u64_of_encode(b, 0, s.len() as u64);
    lemma_read_entries_of_encode(b, 8, s);
}

/// The whole on-disk record is stored as the salt string, the 32
/// verifier bytes, the 12 nonce bytes, and the length-prefixed
/// ciphertext, which must reach the end of the input.
pub open spec fn spec_encode_entry(e: EntryModel) -> Seq<u8> {
    spec_encode_str(e.salt) + e.verify + e.sub_entry.nonce + spec_u64_to_le_bytes(
        e.sub_entry.cipher_text.len() as u64,
    ) + e.sub_entry.cipher_text
}

/// The shape every record written by this library has.
pub open spec fn entry_ok(e: EntryModel) -> bool {
    str_ok(e.salt) && e.verify.len() == 32 && e.sub_entry.nonce.len() == 12
        && e.sub_entry.cipher_text.len() <= u64::MAX
}

/// Decodes a whole on-disk record.
pub open spec fn spec_decode_entry(b: Seq<u8>) -> Option<EntryModel> {
    match spec_read_str(b, 0) {
        None => None,
        Some((salt, p1)) => match spec_read_bytes(b, p1, 32) {
            None => None,
            Some((verify, p2)) => match spec_read_bytes(b, p2, 12) {
                None => None,
                Some((nonce, p3)) => match spec_read_u64(b, p3) {
                    None => None,
                    Some((n, p4)) => if p4 + n == b.len() {
                        Some(
                            EntryModel {
                                salt,
                                verify,
                                sub_entry: SubEntryModel {
                                    nonce,
                                    cipher_text: b.subrange(p4, p4 + n),
                                },
                            },
                        )
                    } else {
                        None
                    },
                },
            },
        },
    }
}

/// Codec round trip for vault records: decoding an encoded record
/// yields exactly that record.
pub proof fn lemma_entry_round_trip(e: EntryModel)
    requires
        entry_ok(e),
    ensures
        spec_decode_entry(spec_encode_entry(e)) == Some(e),
{
    let b = spec_encode_entry(e);
    let es = spec_encode_str(e.salt);
    let v = e.verify;
    let nn = e.sub_entry.nonce;
    let ct = e.sub_entry.cipher_text;
    let le = spec_u64_to_le_bytes(ct.len() as u64);
    lemma_auto_spec_u64_to_from_le_bytes();
    assert(b.subrange(0, b.len() as int) =~= (((es + v) + nn) + le) + ct);
    lemma_split_prefix(b, 0, ((es + v) + nn) + le, ct);
    assert(b.subrange(0, es.len() + v.len() + nn.len() + le.len() as int) == ((es + v) + nn) + le);
    lemma_split_prefix(b, 0, (es + v) + nn, le);
    assert(b.subrange(0, es.len() + v.len() + nn.len() as int) == (es + v) + nn);
    lemma_split_prefix(b, 0, es + v, nn);
    assert(b.subrange(0, es.len() + v.len() as int) == es + v);
    lemma_split_prefix(b, 0, es, v);
    lemma_read_str_of_encode(b, 0, e.salt);
    let p1 = es.len() as int;
    let p2 = p1 + 32;
    let p3 = p2 + 12;
    let p4 = p3 + 8;
    lemma_read_u64_of_encode(b, p3, ct.len() as u64);
    assert(b.subrange(p4, p4 + ct.len()) == ct);
    assert(spec_decode_entry(b) == Some(e));
}

/// Encodes a credential collection.
pub fn encode_creds(c: &CredentialCollection) -> (r: Vec<u8>)
    ensures
        r@ == spec_encode_creds(c@),
{
    let n = c.len();
    let mut out: Vec<u8> = Vec::new();
    write_u64(&mut out, n as u64);
    let mut i: usize = 0;
    while i < n
        invariant
            n == c@.len(),
            i <= n,
            out@ == spec_u64_to_le_bytes(n as u64) + spec_encode_entries(c@.take(i as int)),
        decreases n - i,
    {
        let (svc, cred) = c.entry_at(i);
        let ghost pre = c@.take(i as int);
        write_str(&mut out, svc);
        write_str(&mut out, &cred.username);
        write_str(&mut out, &cred.email);
        write_str(&mut out, &cred.password);
        proof {
            assert(c@.take(i as int + 1) =~= pre.push(c@[i as int]));
            lemma_encode_entries_snoc(pre, c@[i as int]);
            assert(out@ =~= spec_u64_to_le_bytes(n as u64) + spec_encode_entries(
                c@.take(i as int + 1),
            ));
        }
        i = i + 1;
    }
    proof {
        assert(c@.take(n as int) =~= c@);
    }
    out
}

/// Reads one service name and credential, as `spec_read_pair` says.
fn read_pair_at(b: &[u8], pos: usize) -> (r: Option<((String, Credential), usize)>)
    ensures
        match r {
            Some(p) => spec_read_pair(b@, pos as int) == Some(((p.0.0@, p.0.1@), p.1 as int)),
            None => spec_read_pair(b@, pos as int) is None,
        },
{
    match read_str_at(b, pos) {
        None => None,
        Some((k, p1)) => match read_str_at(b, p1) {
            None => None,
            Some((u, p2)) => match read_str_at(b, p2) {
                None => None,
                Some((m, p3)) => match read_str_at(b, p3) {
                    None => None,
                    Some((w, p4)) => Some(
                        ((k, Credential { username: u, email: m, password: w }), p4),
                    ),
                },
            },
        },
    }
}

/// Whether the service names of the parsed pairs are pairwise
/// distinct.
fn keys_all_distinct(v: &Vec<(String, Credential)>) -> (r: bool)
    ensures
        r == keys_distinct(pairs_view(v@)),
{
    let ghost w = pairs_view(v@);
    let n = v.len();
    let mut i: usize = 0;
    while i < n
        invariant
            n == v@.len(),
            w == pairs_view(v@),
            i <= n,
            forall|p: int, q: int|
                #![trigger w[p], w[q]]
                0 <= p < q < n && p < i ==> w[p].0 != w[q].0,
        decreases n - i,
    {
        let mut j: usize = i + 1;
        while j < n
            invariant
                n == v@.len(),
                w == pairs_view(v@),
                i < j <= n || (i + 1 == j && j > n),
                i < n,
                forall|q: int| #![trigger w[q]] i < q < j ==> w[i as int].0 != w[q].0,
            decreases n - j,
        {
            if v[i].0 == v[j].0 {
                proof {
                    assert(w[i as int].0 == w[j as int].0);
                }
                return false;
            }
            j = j + 1;
        }
        i = i + 1;
    }
    true
}

/// Decodes a credential collection, as `spec_decode_creds` says;
/// truncated, ill-formed, or duplicate-key input is rejected.
pub fn decode_creds(b: &[u8]) -> (r: Option<CredentialCollection>)
    ensures
        match r {
            Some(c) => spec_decode_creds(b@) == Some(c@) && c.wf(),
            None => spec_decode_creds(b@) is None,
        },
{
    match read_u64_at(b, 0) {
        None => None,
        Some((n, p0)) => {
            let mut acc: Vec<(String, Credential)> = Vec::new();
            let mut pos: usize = p0;
            let mut i: u64 = 0;
            while i < n
                invariant
                    i <= n,
                    spec_read_u64(b@, 0) == Some((n, p0 as int)),
                    spec_read_entries(b@, p0 as int, n as nat) == match spec_read_entries(
                        b@,
                        pos as int,
                        (n - i) as nat,
                    ) {
                        None => None::<(Seq<(Seq<char>, CredentialModel)>, int)>,
                        Some((rest, e)) => Some((pairs_view(acc@) + rest, e)),
                    },
                decreases n - i,
            {
                let ghost m = (n - i) as nat;
                match read_pair_at(b, pos) {
                    None => {
                        return None;
                    },
                    Some((pair, p2)) => {
                        let ghost a0 = pairs_view(acc@);
                        let ghost pv = (pair.0@, pair.1@);
                        acc.push(pair);
                        pos = p2;
                        proof {
                            assert(pairs_view(acc@) =~= a0.push(pv));
                            assert(spec_read_pair(b@, pos as int) is Some || m - 1 >= 0);
                            assert forall|rest: Seq<(Seq<char>, CredentialModel)>|
                                true implies a0 + (seq![pv] + rest) =~= a0.push(pv) + rest by {}
                        }
                    },
                }
                i = i + 1;
            }
            proof {
                assert(spec_read_entries(b@, pos as int, 0) == Some(
                    (Seq::<(Seq<char>, CredentialModel)>::empty(), pos as int),
                ));
                assert(pairs_view(acc@) + Seq::<(Seq<char>, CredentialModel)>::empty()
                    =~= pairs_view(acc@));
            }
            if pos != b.len() {
                return None;
            }
            if !keys_all_distinct(&acc) {
                return None;
            }
            Some(CredentialCollection::from_entries(acc))
        },
    }
}

/// Encodes an on-disk record.
pub fn encode_entry(e: &Entry) -> (r: Vec<u8>)
    ensures
        r@ == spec_encode_entry(e@),
{
    let mut out: Vec<u8> = Vec::new();
    write_str(&mut out, &e.salt);
    out.extend_from_slice(e.verify.as_slice());
    out.extend_from_slice(e.sub_entry.nonce.as_slice());
    write_u64(&mut out, e.sub_entry.cipher_text.len() as u64);
    out.extend_from_slice(e.sub_entry.cipher_text.as_slice());
    proof {
        assert(out@ =~= spec_encode_entry(e@));
    }
    out
}

/// Decodes an on-disk record, as `spec_decode_entry` says; truncated
/// or ill-formed input is rejected.
pub fn decode_entry(b: &[u8]) -> (r: Option<Entry>)
    ensures
        match r {
            Some(e) => spec_decode_entry(b@) == Some(e@) && e.wf(),
            None => spec_decode_entry(b@) is None,
        },
{
    match read_str_at(b, 0) {
        None => None,
        Some((salt, p1)) => {
            if b.len() - p1 < 32 {
                return None;
            }
            let verify = slice_to_vec(slice_subrange(b, p1, p1 + 32));
            let p2 = p1 + 32;
            if b.len() - p2 < 12 {
                return None;
            }
            let nonce = slice_to_vec(slice_subrange(b, p2, p2 + 12));
            let p3 = p2 + 12;
            match read_u64_at(b, p3) {
                None => None,
                Some((n, p4)) => {
                    if n == (b.len() - p4) as u64 {
                        let ct = slice_to_vec(slice_subrange(b, p4, b.len()));
                        Some(Entry { salt, verify, sub_entry: SubEntry { nonce, cipher_text: ct } })
                    } else {
                        None
                    }
                },
            }
        },
    }
}

} // verus!
