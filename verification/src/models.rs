//! Data model of the vault: the on-disk record, the cipher block it
//! wraps, and the credential collection it protects.

use vstd::prelude::*;

verus! {

/// A user credential, compared field-wise.
#[derive(Debug, Clone)]
pub struct Credential {
    pub username: String,
    pub email: String,
    pub password: String,
}

/// Mathematical value of a [`Credential`]: its three fields as
/// character sequences.
pub struct CredentialModel {
    pub username: Seq<char>,
    pub email: Seq<char>,
    pub password: Seq<char>,
}

impl View for Credential {
    type V = CredentialModel;

    open spec fn view(&self) -> CredentialModel {
        CredentialModel {
            username: self.username@,
            email: self.email@,
            password: self.password@,
        }
    }
}

impl PartialEq for Credential {
    fn eq(&self, other: &Self) -> (r: bool) {
        self.username == other.username && self.email == other.email && self.password
            == other.password
    }
}

impl vstd::std_specs::cmp::PartialEqSpecImpl for Credential {
    open spec fn obeys_eq_spec() -> bool {
        true
    }

    open spec fn eq_spec(&self, other: &Self) -> bool {
        self@ == other@
    }
}

/// The encrypted payload of the record: a fresh 12-byte nonce and the
/// ciphertext, which carries the integrity tag at its end.
#[derive(Debug, Clone)]
pub struct SubEntry {
    pub nonce: Vec<u8>,
    pub cipher_text: Vec<u8>,
}

/// Mathematical value of a [`SubEntry`].
pub struct SubEntryModel {
    pub nonce: Seq<u8>,
    pub cipher_text: Seq<u8>,
}

impl View for SubEntry {
    type V = SubEntryModel;

    open spec fn view(&self) -> SubEntryModel {
        SubEntryModel { nonce: self.nonce@, cipher_text: self.cipher_text@ }
    }
}

impl SubEntry {
    /// The nonce is always 12 bytes long.
    pub open spec fn wf(&self) -> bool {
        self.nonce@.len() == 12
    }
}

/// The whole on-disk vault record: the salt the key was derived with,
/// the derived key stored as the password verifier, and the encrypted
/// credential collection.
#[derive(Debug, Clone)]
pub struct Entry {
    pub salt: String,
    pub verify: Vec<u8>,
    pub sub_entry: SubEntry,
}

/// Mathematical value of an [`Entry`].
pub struct EntryModel {
    pub salt: Seq<char>,
    pub verify: Seq<u8>,
    pub sub_entry: SubEntryModel,
}

impl View for Entry {
    type V = EntryModel;

    open spec fn view(&self) -> EntryModel {
        EntryModel { salt: self.salt@, verify: self.verify@, sub_entry: self.sub_entry@ }
    }
}

impl Entry {
    /// The verifier is one derived key, 32 bytes; the nonce 12.
    pub open spec fn wf(&self) -> bool {
        self.verify@.len() == 32 && self.sub_entry.wf()
    }
}

/// The keys of the entry sequence are pairwise distinct.
pub open spec fn keys_distinct(s: Seq<(Seq<char>, CredentialModel)>) -> bool {
    forall|i: int, j: int| #![trigger s[i], s[j]] 0 <= i < j < s.len() ==> s[i].0 != s[j].0
}

/// Some entry of `s` bears the key `k`.
pub open spec fn has_key(s: Seq<(Seq<char>, CredentialModel)>, k: Seq<char>) -> bool {
    exists|i: int| 0 <= i < s.len() && (#[trigger] s[i]).0 == k
}

/// The mapping that an entry sequence denotes; a later entry with the
/// same key overwrites an earlier one.
pub open spec fn entries_map(s: Seq<(Seq<char>, CredentialModel)>) -> Map<
    Seq<char>,
    CredentialModel,
>
    decreases s.len(),
{
    if s.len() == 0 {
        Map::empty()
    } else {
        entries_map(s.drop_last()).insert(s.last().0, s.last().1)
    }
}

/// The denoted mapping holds exactly the keys of the sequence.
pub proof fn lemma_entries_map_covers(s: Seq<(Seq<char>, CredentialModel)>)
    ensures
        forall|k: Seq<char>| #[trigger] entries_map(s).contains_key(k) <==> has_key(s, k),
    decreases s.len(),
{
    if s.len() > 0 {
        lemma_entries_map_covers(s.drop_last());
        assert forall|k: Seq<char>| #[trigger] entries_map(s).contains_key(k) implies has_key(
            s,
            k,
        ) by {
            if k == s.last().0 {
                assert(s[s.len() - 1].0 == k);
            } else {
                assert(entries_map(s.drop_last()).contains_key(k));
                assert(has_key(s.drop_last(), k));
                let i = choose|i: int| 0 <= i < s.drop_last().len() && (#[trigger] s.drop_last()[i]).0
                    == k;
                assert(s.drop_last()[i] == s[i]);
                assert(s[i].0 == k);
            }
        }
        assert forall|k: Seq<char>| has_key(s, k) implies #[trigger] entries_map(
            s,
        ).contains_key(k) by {
            let i = choose|i: int| 0 <= i < s.len() && (#[trigger] s[i]).0 == k;
            if i < s.len() - 1 {
                assert(s.drop_last()[i] == s[i]);
                assert(has_key(s.drop_last(), k));
                assert(entries_map(s.drop_last()).contains_key(k));
            } else {
                assert(k == s.last().0);
            }
        }
    }
}

/// With distinct keys, the mapping sends each key to the credential
/// stored beside it.
pub proof fn lemma_entries_map_index(s: Seq<(Seq<char>, CredentialModel)>, i: int)
    requires
        keys_distinct(s),
        0 <= i < s.len(),
    ensures
        entries_map(s).contains_key(s[i].0),
        entries_map(s)[s[i].0] == s[i].1,
    decreases s.len(),
{
    if i < s.len() - 1 {
        assert(keys_distinct(s.drop_last())) by {
            assert forall|p: int, q: int|
                #![trigger s.drop_last()[p], s.drop_last()[q]]
                0 <= p < q < s.drop_last().len() implies s.drop_last()[p].0 != s.drop_last()[q].0 by {
                assert(s[p] == s.drop_last()[p]);
                assert(s[q] == s.drop_last()[q]);
            }
        }
        lemma_entries_map_index(s.drop_last(), i);
        assert(s.drop_last()[i] == s[i]);
        assert(s[i].0 != s.last().0);
    }
}

/// With distinct keys, removing the entry at `i` removes exactly its
/// key from the denoted mapping.
pub proof fn lemma_entries_map_remove(s: Seq<(Seq<char>, CredentialModel)>, i: int)
    requires
        keys_distinct(s),
        0 <= i < s.len(),
    ensures
        entries_map(s.remove(i)) =~= entries_map(s).remove(s[i].0),
    decreases s.len(),
{
    lemma_entries_map_covers(s);
    lemma_entries_map_covers(s.drop_last());
    if i == s.len() - 1 {
        assert(s.remove(i) =~= s.drop_last());
        assert(!has_key(s.drop_last(), s[i].0)) by {
            if has_key(s.drop_last(), s[i].0) {
                let j = choose|j: int|
                    0 <= j < s.drop_last().len() && (#[trigger] s.drop_last()[j]).0 == s[i].0;
                assert(s[j] == s.drop_last()[j]);
            }
        }
    } else {
        assert(keys_distinct(s.drop_last())) by {
            assert forall|p: int, q: int|
                #![trigger s.drop_last()[p], s.drop_last()[q]]
                0 <= p < q < s.drop_last().len() implies s.drop_last()[p].0 != s.drop_last()[q].0 by {
                assert(s[p] == s.drop_last()[p]);
                assert(s[q] == s.drop_last()[q]);
            }
        }
        assert(s.drop_last()[i] == s[i]);
        lemma_entries_map_remove(s.drop_last(), i);
        assert(s.remove(i).drop_last() =~= s.drop_last().remove(i));
        assert(s.remove(i).last() == s.last());
        assert(s[i].0 != s.last().0);
    }
}

/// The value that a sequence of service-name / credential pairs
/// denotes.
pub open spec fn pairs_view(s: Seq<(String, Credential)>) -> Seq<(Seq<char>, CredentialModel)> {
    s.map_values(|p: (String, Credential)| (p.0@, p.1@))
}

/// The in-memory credential collection: service names mapped to
/// credentials, held as a vector of pairs with distinct keys.
#[derive(Debug, Clone)]
pub struct CredentialCollection {
    entries: Vec<(String, Credential)>,
}

impl View for CredentialCollection {
    type V = Seq<(Seq<char>, CredentialModel)>;

    closed spec fn view(&self) -> Seq<(Seq<char>, CredentialModel)> {
        pairs_view(self.entries@)
    }
}

impl CredentialCollection {
    /// Keys are pairwise distinct.
    pub open spec fn wf(&self) -> bool {
        keys_distinct(self@)
    }

    /// The mapping this collection denotes.
    pub open spec fn as_map(&self) -> Map<Seq<char>, CredentialModel> {
        entries_map(self@)
    }

    /// A collection made of the given pairs, whose keys must be
    /// pairwise distinct.
    pub fn from_entries(entries: Vec<(String, Credential)>) -> (r: CredentialCollection)
        requires
            keys_distinct(pairs_view(entries@)),
        ensures
            r@ == pairs_view(entries@),
            r.wf(),
    {
        CredentialCollection { entries }
    }

    /// An empty collection.
    pub fn new() -> (r: CredentialCollection)
        ensures
            r@ =~= Seq::<(Seq<char>, CredentialModel)>::empty(),
            r.wf(),
            r.as_map() =~= Map::<Seq<char>, CredentialModel>::empty(),
    {
        CredentialCollection { entries: Vec::new() }
    }

    /// How many services are stored.
    pub fn len(&self) -> (r: usize)
        ensures
            r == self@.len(),
    {
        self.entries.len()
    }

    /// The entry at position `i`, as a service name and credential.
    pub fn entry_at(&self, i: usize) -> (r: (&String, &Credential))
        requires
            i < self@.len(),
        ensures
            r.0@ == self@[i as int].0,
            r.1@ == self@[i as int].1,
    {
        let p = &self.entries[i];
        (&p.0, &p.1)
    }

    fn position_of(&self, service: &String) -> (r: Option<usize>)
        ensures
            match r {
                Some(i) => i < self@.len() && self@[i as int].0 == service@,
                None => !has_key(self@, service@),
            },
    {
        let n = self.entries.len();
        let mut i: usize = 0;
        while i < n
            invariant
                n == self@.len(),
                i <= n,
                forall|j: int| 0 <= j < i ==> (#[trigger] self@[j]).0 != service@,
            decreases n - i,
        {
            if self.entries[i].0 == *service {
                return Some(i);
            }
            i = i + 1;
        }
        None
    }

    /// Whether a credential is stored under `service`.
    pub fn contains_key(&self, service: &String) -> (r: bool)
        ensures
            r == has_key(self@, service@),
            self.wf() ==> r == self.as_map().contains_key(service@),
    {
        proof {
            lemma_entries_map_covers(self@);
        }
        match self.position_of(service) {
            Some(i) => {
                proof {
                    assert(self@[i as int].0 == service@);
                }
                true
            },
            None => false,
        }
    }

    /// The credential stored under `service`, if any.
    pub fn get(&self, service: &String) -> (r: Option<&Credential>)
        requires
            self.wf(),
        ensures
            match r {
                Some(c) => self.as_map().contains_key(service@) && c@ == self.as_map()[service@],
                None => !self.as_map().contains_key(service@),
            },
    {
        proof {
            lemma_entries_map_covers(self@);
        }
        match self.position_of(service) {
            Some(i) => {
                proof {
                    lemma_entries_map_index(self@, i as int);
                }
                Some(&self.entries[i].1)
            },
            None => None,
        }
    }

    /// Stores `cred` under `service`; a credential already stored
    /// under the same name is overwritten.
    pub fn insert(&mut self, service: String, cred: Credential)
        requires
            old(self).wf(),
        ensures
            final(self).wf(),
            final(self).as_map() =~= old(self).as_map().insert(service@, cred@),
            final(self)@.len() <= old(self)@.len() + 1,
    {
        proof {
            lemma_entries_map_covers(self@);
        }
        let ghost s0 = self@;
        match self.position_of(&service) {
            Some(i) => {
                proof {
                    lemma_entries_map_remove(s0, i as int);
                }
                self.entries.remove(i);
                proof {
                    assert(self@ =~= s0.remove(i as int));
                    assert forall|p: int, q: int|
                        #![trigger self@[p], self@[q]]
                        0 <= p < q < self@.len() implies self@[p].0 != self@[q].0 by {
                        if p < i as int {
                            assert(s0[p] == s0.remove(i as int)[p]);
                        }
                    }
                }
                let ghost s1 = self@;
                self.entries.push((service, cred));
                proof {
                    assert(self@ =~= s1.push((service@, cred@)));
                    assert(self@.drop_last() =~= s1);
                    lemma_entries_map_covers(s1);
                    assert forall|p: int, q: int|
                        #![trigger self@[p], self@[q]]
                        0 <= p < q < self@.len() implies self@[p].0 != self@[q].0 by {
                        if q == self@.len() - 1 {
                            if self@[p].0 == service@ {
                                assert(s1[p].0 == service@);
                                assert(has_key(s1, service@));
                                assert(entries_map(s1).contains_key(service@));
                            }
                        }
                    }
                }
            },
            None => {
                self.entries.push((service, cred));
                proof {
                    assert(self@ =~= s0.push((service@, cred@)));
                    assert(self@.drop_last() =~= s0);
                    assert forall|p: int, q: int|
                        #![trigger self@[p], self@[q]]
                        0 <= p < q < self@.len() implies self@[p].0 != self@[q].0 by {
                        if q == self@.len() - 1 {
                            assert(s0[p].0 != service@);
                        }
                    }
                    assert(entries_map(self@) =~= entries_map(s0).insert(service@, cred@));
                    assert(!entries_map(s0).contains_key(service@));
                }
            },
        }
    }

    /// Removes the credential stored under `service`, if any.
    pub fn remove(&mut self, service: &String)
        requires
            old(self).wf(),
        ensures
            final(self).wf(),
            final(self).as_map() =~= old(self).as_map().remove(service@),
    {
        proof {
            lemma_entries_map_covers(self@);
        }
        let ghost s0 = self@;
        match self.position_of(service) {
            Some(i) => {
                proof {
                    lemma_entries_map_remove(s0, i as int);
                }
                self.entries.remove(i);
                proof {
                    assert(self@ =~= s0.remove(i as int));
                    assert forall|p: int, q: int|
                        #![trigger self@[p], self@[q]]
                        0 <= p < q < self@.len() implies self@[p].0 != self@[q].0 by {
                        if p < i as int {
                            assert(s0[p] == s0.remove(i as int)[p]);
                        }
                    }
                }
            },
            None => {
                proof {
                    assert(!entries_map(s0).contains_key(service@));
                    assert(entries_map(s0).remove(service@) =~= entries_map(s0));
                }
            },
        }
    }
}

} // verus!
