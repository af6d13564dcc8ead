use vstd::prelude::*;
use vstd::string::StringExecFns;
use crate::b64::{b64_decode, b64_decoded, b64_encode, b64_of};
use crate::crypto::KEY_LEN;
use crate::errors::{CryptoError, StoreError};

verus! {

/// The platform credential store's entry handle.
#[verifier::external_type_specification]
#[verifier::external_body]
pub struct ExEntry(keyring::Entry);

/// The platform credential store's error.
#[verifier::external_type_specification]
#[verifier::external_body]
pub struct ExKeyringError(keyring::Error);

/// Relies on keyring's `Entry::new`: a handle for the credential named by
/// the service/account pair, or an error where no credential store backend
/// is available.
#[verifier::external_body]
fn entry_new(service: &str, account: &str) -> (r: Result<keyring::Entry, keyring::Error>) {
    keyring::Entry::new(service, account)
}

/// Relies on keyring's `Entry::get_password`: the text stored under the
/// entry, or an error (among them "no such entry"). The result depends on
/// the platform store's state, so nothing is promised of it.
#[verifier::external_body]
fn entry_get_password(entry: &keyring::Entry) -> (r: Result<String, keyring::Error>) {
    entry.get_password()
}

/// Relies on keyring's `Entry::set_password`: stores the text under the
/// entry.
#[verifier::external_body]
fn entry_set_password(entry: &keyring::Entry, value: &str) -> (r: Result<(), keyring::Error>) {
    entry.set_password(value)
}

/// Relies on keyring's `Error`: tells the "no such entry" case apart from
/// real failures, moving no data.
#[verifier::external_body]
fn err_is_no_entry(e: &keyring::Error) -> (r: bool) {
    matches!(e, keyring::Error::NoEntry)
}

/// One stored secret of the in-memory backend: service, account, value.
#[derive(Debug)]
pub struct MemEntry {
    pub service: String,
    pub account: String,
    pub value: String,
}

/// A capability handle on a secret store: either the operating system's
/// credential store, or an in-memory table (for tests and for hosts without
/// a platform store).
///
/// Only the in-memory backend has modeled contents; of the platform store
/// nothing can be promised, and callers state what holds whatever it
/// returns.
pub enum SecretStore {
    /// The platform credential store, addressed per call by service and
    /// account.
    Keyring,
    /// An in-memory table of (service, account) -> value.
    Memory(Vec<MemEntry>),
}

/// The map a sequence of in-memory entries denotes; a later entry with the
/// same key wins.
pub open spec fn entries_map(es: Seq<MemEntry>) -> Map<(Seq<char>, Seq<char>), Seq<char>>
    decreases es.len(),
{
    if es.len() == 0 {
        Map::empty()
    } else {
        entries_map(es.drop_last()).insert(
            (es.last().service@, es.last().account@),
            es.last().value@,
        )
    }
}

pub open spec fn entry_keys_unique(es: Seq<MemEntry>) -> bool {
    forall|i: int, j: int|
        0 <= i < j < es.len() ==> (es[i].service@, es[i].account@) != (
        es[j].service@,
        es[j].account@,
        )
}

proof fn lemma_entries_map_contains(es: Seq<MemEntry>, k: (Seq<char>, Seq<char>))
    ensures
        entries_map(es).contains_key(k) <==> exists|i: int|
            0 <= i < es.len() && ((#[trigger] es[i]).service@, es[i].account@) == k,
    decreases es.len(),
{
    if es.len() > 0 {
        lemma_entries_map_contains(es.drop_last(), k);
        if entries_map(es).contains_key(k) {
            if (es.last().service@, es.last().account@) != k {
                let i = choose|i: int|
                    0 <= i < es.drop_last().len() && ((#[trigger] es.drop_last()[i]).service@,
                    es.drop_last()[i].account@) == k;
                assert((es[i].service@, es[i].account@) == k);
            }
        }
        if exists|i: int| 0 <= i < es.len() && ((#[trigger] es[i]).service@, es[i].account@) == k {
            let i = choose|i: int|
                0 <= i < es.len() && ((#[trigger] es[i]).service@, es[i].account@) == k;
            if i < es.len() - 1 {
                assert((es.drop_last()[i].service@, es.drop_last()[i].account@) == k);
            }
        }
    }
}

proof fn lemma_entries_map_get(es: Seq<MemEntry>, i: int)
    requires
        entry_keys_unique(es),
        0 <= i < es.len(),
    ensures
        entries_map(es).contains_key((es[i].service@, es[i].account@)),
        entries_map(es)[(es[i].service@, es[i].account@)] == es[i].value@,
    decreases es.len(),
{
    if i == es.len() - 1 {
    } else {
        assert(entry_keys_unique(es.drop_last()));
        assert(es.drop_last()[i] == es[i]);
        lemma_entries_map_get(es.drop_last(), i);
        assert((es[i].service@, es[i].account@) != (es.last().service@, es.last().account@));
    }
}

proof fn lemma_entries_map_update(es: Seq<MemEntry>, i: int, e: MemEntry)
    requires
        entry_keys_unique(es),
        0 <= i < es.len(),
        (e.service@, e.account@) == (es[i].service@, es[i].account@),
    ensures
        entries_map(es.update(i, e)) =~= entries_map(es).insert((e.service@, e.account@), e.value@),
    decreases es.len(),
{
    let n = es.len() as int;
    if i == n - 1 {
        assert(es.update(i, e).drop_last() =~= es.drop_last());
        assert(es.update(i, e).last() == e);
    } else {
        assert(entry_keys_unique(es.drop_last()));
        assert(es.drop_last()[i] == es[i]);
        lemma_entries_map_update(es.drop_last(), i, e);
        assert(es.update(i, e).drop_last() =~= es.drop_last().update(i, e));
        assert(es.update(i, e).last() == es.last());
        assert((es[i].service@, es[i].account@) != (es.last().service@, es.last().account@));
    }
}

impl SecretStore {
    /// The modeled contents: the key-value map of the in-memory backend, or
    /// `None` for the platform store, whose contents no model can pin.
    pub open spec fn mem_view(self) -> Option<Map<(Seq<char>, Seq<char>), Seq<char>>> {
        match self {
            SecretStore::Keyring => None,
            SecretStore::Memory(es) => Some(entries_map(es@)),
        }
    }

    /// Well-formed: in-memory entry keys are unique.
    pub open spec fn wf(self) -> bool {
        match self {
            SecretStore::Keyring => true,
            SecretStore::Memory(es) => entry_keys_unique(es@),
        }
    }

    /// A fresh empty in-memory store.
    pub fn new_memory() -> (r: SecretStore)
        ensures
            r.wf(),
            r.mem_view() == Some(Map::<(Seq<char>, Seq<char>), Seq<char>>::empty()),
    {
        SecretStore::Memory(Vec::new())
    }

    /// A handle on the platform credential store.
    pub fn new_keyring() -> (r: SecretStore)
        ensures
            r.wf(),
            r.mem_view() is None,
    {
        SecretStore::Keyring
    }

    fn find_entry_index(es: &Vec<MemEntry>, service: &str, account: &str) -> (r: Option<usize>)
        ensures
            match r {
                Some(i) => i < es@.len() && es@[i as int].service@ == service@
                    && es@[i as int].account@ == account@,
                None => forall|i: int|
                    0 <= i < es@.len() ==> ((#[trigger] es@[i]).service@, es@[i].account@) != (
                    service@,
                    account@,
                    ),
            },
    {
        let mut i: usize = 0;
        while i < es.len()
            invariant
                i <= es@.len(),
                forall|j: int|
                    0 <= j < i ==> ((#[trigger] es@[j]).service@, es@[j].account@) != (
                    service@,
                    account@,
                    ),
            decreases es@.len() - i,
        {
            if crate::config::str_eq(es[i].service.as_str(), service) && crate::config::str_eq(
                es[i].account.as_str(),
                account,
            ) {
                return Some(i);
            }
            i = i + 1;
        }
        None
    }

    /// Read the secret stored under (service, account); absence is a normal
    /// `None`, not an error.
    pub fn get(&self, service: &str, account: &str) -> (r: Result<Option<String>, StoreError>)
        requires
            self.wf(),
        ensures
            r matches Err(e) ==> e == StoreError::Keyring,
            self.mem_view() matches Some(m) ==> {
                &&& r is Ok
                &&& (r.unwrap() is Some <==> m.contains_key((service@, account@)))
                &&& r.unwrap() matches Some(v) ==> v@ == m[(service@, account@)]
            },
    {
        match self {
            SecretStore::Keyring => {
                match entry_new(service, account) {
                    Ok(entry) => match entry_get_password(&entry) {
                        Ok(value) => Ok(Some(value)),
                        Err(e) => if err_is_no_entry(&e) {
                            Ok(None)
                        } else {
                            Err(StoreError::Keyring)
                        },
                    },
                    Err(_) => Err(StoreError::Keyring),
                }
            },
            SecretStore::Memory(es) => {
                proof {
                    lemma_entries_map_contains(es@, (service@, account@));
                }
                match Self::find_entry_index(es, service, account) {
                    Some(i) => {
                        proof {
                            lemma_entries_map_get(es@, i as int);
                        }
                        Ok(Some(es[i].value.clone()))
                    },
                    None => Ok(None),
                }
            },
        }
    }

    /// Write the secret stored under (service, account), overwriting any
    /// previous value.
    pub fn set(&mut self, service: &str, account: &str, value: &str) -> (r: Result<
        (),
        StoreError,
    >)
        requires
            old(self).wf(),
        ensures
            final(self).wf(),
            r matches Err(e) ==> e == StoreError::Keyring,
            old(self).mem_view() matches Some(m) ==> {
                &&& r is Ok
                &&& final(self).mem_view() == Some(m.insert((service@, account@), value@))
            },
            old(self).mem_view() is None ==> *final(self) == *old(self),
    {
        match self {
            SecretStore::Keyring => {
                match entry_new(service, account) {
                    Ok(entry) => match entry_set_password(&entry, value) {
                        Ok(_) => Ok(()),
                        Err(_) => Err(StoreError::Keyring),
                    },
                    Err(_) => Err(StoreError::Keyring),
                }
            },
            SecretStore::Memory(es) => {
                let entry = MemEntry {
                    service: String::from_str(service),
                    account: String::from_str(account),
                    value: String::from_str(value),
                };
                match Self::find_entry_index(es, service, account) {
                    Some(i) => {
                        proof {
                            lemma_entries_map_update(es@, i as int, entry);
                        }
                        es[i] = entry;
                    },
                    None => {
                        proof {
                            assert(es@.push(entry).drop_last() =~= es@);
                            assert(entry_keys_unique(es@.push(entry)));
                        }
                        es.push(entry);
                    },
                }
                Ok(())
            },
        }
    }
}

/// The service of the device-key entry.
pub open spec fn key_service() -> Seq<char> {
    "sex-cli"@
}

/// The account of the device-key entry.
pub open spec fn key_account() -> Seq<char> {
    "project-encryption-key"@
}

/// The device key a store state holds: the decoded bytes of the device-key
/// entry, where that entry is present, decodes, and has the right length.
pub open spec fn stored_key(m: Map<(Seq<char>, Seq<char>), Seq<char>>) -> Option<Seq<u8>> {
    if m.contains_key((key_service(), key_account())) {
        match b64_decoded(m[(key_service(), key_account())]) {
            Some(k) => if k.len() == KEY_LEN {
                Some(k)
            } else {
                None
            },
            None => None,
        }
    } else {
        None
    }
}

/// Relies on rand's `random`: 32 bytes from a cryptographically secure
/// generator. Nothing more can be promised of a random value.
#[verifier::external_body]
fn random_key_bytes() -> (r: Vec<u8>)
    ensures
        r@.len() == KEY_LEN,
{
    rand::random::<[u8; 32]>().to_vec()
}

/// Obtain the device key: read the fixed entry and decode it, or, where the
/// entry is absent, generate 32 random bytes, store their encoding under the
/// entry, and return them.
///
/// On the modeled in-memory backend: a store already holding a valid key
/// yields exactly that key and is left unchanged; a store without the entry
/// ends up holding a valid encoding of the returned key; an entry that does
/// not decode to 32 bytes fails closed, never truncating or padding.
pub fn get_or_create_key(store: &mut SecretStore) -> (r: Result<Vec<u8>, StoreError>)
    requires
        old(store).wf(),
    ensures
        final(store).wf(),
        r matches Ok(k) ==> k@.len() == KEY_LEN,
        r matches Err(e) ==> (e == StoreError::Keyring || e matches StoreError::Crypto(_)),
        old(store).mem_view() matches Some(m) ==> {
            &&& m.contains_key((key_service(), key_account())) ==> *final(store) == *old(store)
            &&& stored_key(m) matches Some(k) ==> r is Ok && r.unwrap()@ == k
            &&& (m.contains_key((key_service(), key_account())) && stored_key(m) is None) ==> r
                is Err
            &&& !m.contains_key((key_service(), key_account())) ==> r is Ok && {
                &&& final(store).mem_view() is Some
                &&& stored_key(final(store).mem_view().unwrap()) == Some(r.unwrap()@)
                &&& final(store).mem_view().unwrap() =~= m.insert(
                    (key_service(), key_account()),
                    b64_of(r.unwrap()@),
                )
            }
        },
        old(store).mem_view() is None ==> *final(store) == *old(store),
{
    let existing = store.get("sex-cli", "project-encryption-key")?;
    match existing {
        Some(text) => match b64_decode(text.as_str()) {
            Ok(bytes) => if bytes.len() == KEY_LEN {
                Ok(bytes)
            } else {
                Err(StoreError::Crypto(CryptoError::Malformed))
            },
            Err(_) => Err(StoreError::Crypto(CryptoError::Malformed)),
        },
        None => {
            let key = random_key_bytes();
            let text = b64_encode(key.as_slice());
            store.set("sex-cli", "project-encryption-key", text.as_str())?;
            Ok(key)
        },
    }
}

/// Key stability: once a valid encoding of a key stands under the device-key
/// entry, any store state carrying that entry yields exactly that key, so
/// consecutive fetches within one process, and fetches by a later process
/// reading the same store, all return identical bytes.
pub proof fn lemma_key_stability(
    m: Map<(Seq<char>, Seq<char>), Seq<char>>,
    enc: Seq<char>,
    k: Seq<u8>,
)
    requires
        b64_decoded(enc) == Some(k),
        k.len() == KEY_LEN,
    ensures
        stored_key(m.insert((key_service(), key_account()), enc)) == Some(k),
{
}

} // verus!
