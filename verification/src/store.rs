//! The credential mapping and the encrypted store built around it.
//!
//! A `CredentialStore` keeps account names with their secrets, account names
//! unique, and is viewed as a map from account name to secret. `sealed_blob`
//! turns a store into the single persisted artifact (ciphertext with its
//! tag, under the fixed all-zero nonce), and `load` turns such a blob back
//! into a store, failing exactly when the blob does not authenticate under
//! the given key.

use vstd::prelude::*;

verus! {

use crate::codec;
use crate::crypto;
use vstd::utf8::decode_utf8;
use vstd::utf8::encode_utf8;
use vstd::utf8::valid_utf8;
use vstd::string::StrSliceExecFns;

/// The mapping an entry sequence denotes: later entries win, as they do for
/// any decoder that fills a map front to back.
pub open spec fn map_of(es: Seq<(Seq<char>, Seq<char>)>) -> Map<Seq<char>, Seq<char>>
    decreases es.len(),
{
    if es.len() == 0 {
        Map::empty()
    } else {
        map_of(es.drop_last()).insert(es.last().0, es.last().1)
    }
}

/// No two entries share an account name.
pub open spec fn unique_keys(es: Seq<(Seq<char>, Seq<char>)>) -> bool {
    forall|i: int, j: int| 0 <= i < j < es.len() ==> es[i].0 != es[j].0
}

/// An account name is in the mapping exactly when some entry carries it.
pub proof fn lemma_map_of_contains(es: Seq<(Seq<char>, Seq<char>)>, k: Seq<char>)
    ensures
        map_of(es).contains_key(k) <==> exists|i: int| 0 <= i < es.len() && es[i].0 == k,
    decreases es.len(),
{
    if es.len() > 0 {
        lemma_map_of_contains(es.drop_last(), k);
        if k == es.last().0 {
            assert(es[es.len() - 1].0 == k);
        } else {
            if map_of(es).contains_key(k) {
                let i = choose|i: int|
                    0 <= i < es.drop_last().len() && es.drop_last()[i].0 == k;
                assert(es[i].0 == k);
            }
            if exists|i: int| 0 <= i < es.len() && es[i].0 == k {
                let i = choose|i: int| 0 <= i < es.len() && es[i].0 == k;
                assert(es.drop_last()[i] == es[i]);
            }
        }
    }
}

/// With unique account names, the mapping pairs each entry's name with that
/// entry's secret.
pub proof fn lemma_map_of_index(es: Seq<(Seq<char>, Seq<char>)>, i: int)
    requires
        unique_keys(es),
        0 <= i < es.len(),
    ensures
        map_of(es).contains_key(es[i].0),
        map_of(es)[es[i].0] == es[i].1,
    decreases es.len(),
{
    if i < es.len() - 1 {
        assert(unique_keys(es.drop_last())) by {
            assert(forall|a: int, b: int|
                0 <= a < b < es.drop_last().len() ==> es.drop_last()[a] == es[a]
                    && es.drop_last()[b] == es[b]);
        }
        lemma_map_of_index(es.drop_last(), i);
        assert(es.drop_last()[i] == es[i]);
        assert(es[i].0 != es.last().0);
    }
}

/// With unique account names, removing an entry removes exactly its name
/// from the mapping.
pub proof fn lemma_map_of_remove(es: Seq<(Seq<char>, Seq<char>)>, i: int)
    requires
        unique_keys(es),
        0 <= i < es.len(),
    ensures
        map_of(es.remove(i)) == map_of(es).remove(es[i].0),
    decreases es.len(),
{
    assert(unique_keys(es.drop_last())) by {
        assert(forall|a: int, b: int|
            0 <= a < b < es.drop_last().len() ==> es.drop_last()[a] == es[a] && es.drop_last()[b]
                == es[b]);
    }
    if i == es.len() - 1 {
        assert(es.remove(i) =~= es.drop_last());
        lemma_map_of_contains(es.drop_last(), es[i].0);
        assert(forall|j: int| 0 <= j < es.drop_last().len() ==> es.drop_last()[j] == es[j]);
        assert(!map_of(es.drop_last()).contains_key(es[i].0));
        assert(map_of(es.drop_last()) =~= map_of(es.drop_last()).insert(
            es.last().0,
            es.last().1,
        ).remove(es[i].0));
    } else {
        let es2 = es.remove(i);
        assert(es2.last() == es.last());
        assert(es2.drop_last() =~= es.drop_last().remove(i));
        lemma_map_of_remove(es.drop_last(), i);
        assert(es.drop_last()[i] == es[i]);
        assert(es[i].0 != es.last().0);
        assert(map_of(es.drop_last()).remove(es[i].0).insert(es.last().0, es.last().1)
            =~= map_of(es.drop_last()).insert(es.last().0, es.last().1).remove(es[i].0));
    }
}

/// The mapping a decrypted plaintext denotes: what its characters decode
/// to, or the empty mapping where the bytes are not valid UTF-8 or do not
/// parse — the lenient fallback of the on-disk format, which prefers an
/// empty store to a hard failure once the blob has authenticated.
pub open spec fn store_of_plaintext(pt: Seq<u8>) -> Map<Seq<char>, Seq<char>> {
    if valid_utf8(pt) {
        match codec::spec_decode(decode_utf8(pt)) {
            Some(es) => map_of(es),
            None => Map::empty(),
        }
    } else {
        Map::empty()
    }
}

/// The serialize–then–deserialize path of the persisted format is the
/// identity: the mapping read back from an encoded plaintext is exactly the
/// mapping that was encoded.
pub proof fn lemma_plaintext_round_trip(es: Seq<(Seq<char>, Seq<char>)>)
    ensures
        store_of_plaintext(encode_utf8(codec::spec_encode(es))) == map_of(es),
{
    broadcast use vstd::utf8::encode_utf8_valid_utf8;
    broadcast use vstd::utf8::encode_utf8_decode_utf8;

    codec::lemma_codec_round_trip(es);
}

/// The characters of a string, in order.
fn str_chars(s: &str) -> (r: Vec<char>)
    ensures
        r@ == s@,
{
    let n = s.unicode_len();
    let mut out: Vec<char> = Vec::new();
    let mut i: usize = 0;
    while i < n
        invariant
            i <= n,
            n == s@.len(),
            out@ == s@.take(i as int),
        decreases n - i,
    {
        let c = s.get_char(i);
        out.push(c);
        proof {
            assert(s@.take(i + 1 as int) =~= s@.take(i as int).push(c));
        }
        i = i + 1;
    }
    proof {
        assert(s@.take(n as int) =~= s@);
    }
    out
}

/// The in-memory credential mapping: account names with their secrets.
pub struct CredentialStore {
    entries: Vec<(String, String)>,
}

/// Why a store could not be loaded: the blob did not authenticate under the
/// derived key — a wrong passphrase and a corrupted or tampered file are
/// indistinguishable here.
#[derive(Clone, Copy, PartialEq, Eq, Debug)]
pub enum LoadError {
    AuthenticationFailure,
}

impl View for CredentialStore {
    type V = Map<Seq<char>, Seq<char>>;

    closed spec fn view(&self) -> Map<Seq<char>, Seq<char>> {
        map_of(codec::entry_views(self.entries@))
    }
}

impl CredentialStore {
    /// The entries in storage order, as character sequences.
    pub closed spec fn entry_views(&self) -> Seq<(Seq<char>, Seq<char>)> {
        codec::entry_views(self.entries@)
    }

    /// Account names are unique.
    pub closed spec fn wf(&self) -> bool {
        unique_keys(self.entry_views())
    }

    /// The empty mapping: no stored credentials yet.
    pub fn new() -> (s: Self)
        ensures
            s.wf(),
            s@ == Map::<Seq<char>, Seq<char>>::empty(),
            s.entry_views() == Seq::<(Seq<char>, Seq<char>)>::empty(),
    {
        let s = CredentialStore { entries: Vec::new() };
        proof {
            assert(s.entry_views() =~= Seq::<(Seq<char>, Seq<char>)>::empty());
        }
        s
    }

    /// The index of the entry for the account, if there is one.
    fn find(&self, account: &String) -> (r: Option<usize>)
        ensures
            r matches Some(i) ==> i < self.entries@.len() && self.entries@[i as int].0@
                == account@,
            r is None ==> forall|t: int| 0 <= t < self.entries@.len() ==> self.entries@[t].0@
                != account@,
    {
        let n = self.entries.len();
        let mut i: usize = 0;
        while i < n
            invariant
                n == self.entries@.len(),
                i <= n,
                forall|t: int| 0 <= t < i ==> self.entries@[t].0@ != account@,
            decreases n - i,
        {
            if self.entries[i].0 == *account {
                return Some(i);
            }
            i = i + 1;
        }
        None
    }

    /// Inserts the secret for the account, overwriting any previous one.
    pub fn upsert(&mut self, account: String, secret: String)
        requires
            old(self).wf(),
        ensures
            final(self).wf(),
            final(self)@ == old(self)@.insert(account@, secret@),
    {
        let ghost old_views = self.entry_views();
        match self.find(&account) {
            Some(i) => {
                proof {
                    assert(old_views[i as int].0 == account@);
                }
                self.entries.remove(i);
                proof {
                    assert(self.entry_views() =~= old_views.remove(i as int));
                    lemma_map_of_remove(old_views, i as int);
                    old_views.remove_ensures(i as int);
                }
                self.entries.push((account, secret));
                proof {
                    let removed = old_views.remove(i as int);
                    let pushed = self.entry_views();
                    assert(pushed.drop_last() =~= removed);
                    assert(pushed.last() == (account@, secret@));
                    assert(final(self)@ =~= old(self)@.insert(account@, secret@));
                    assert forall|a: int, b: int| 0 <= a < b < pushed.len() implies pushed[a].0
                        != pushed[b].0 by {
                        assert(pushed[a] == removed[a]);
                        assert(forall|t: int| 0 <= t < removed.len() ==> removed[t] == (
                        if t < i as int {
                            old_views[t]
                        } else {
                            old_views[t + 1]
                        }));
                        if b < pushed.len() - 1 {
                            assert(pushed[b] == removed[b]);
                        }
                    }
                }
            },
            None => {
                self.entries.push((account, secret));
                proof {
                    let pushed = self.entry_views();
                    assert(pushed.drop_last() =~= old_views);
                    assert(pushed.last() == (account@, secret@));
                    assert(final(self)@ =~= old(self)@.insert(account@, secret@));
                    assert forall|a: int, b: int| 0 <= a < b < pushed.len() implies pushed[a].0
                        != pushed[b].0 by {
                        assert(pushed[a] == old_views[a]);
                        if b < pushed.len() - 1 {
                            assert(pushed[b] == old_views[b]);
                        } else {
                            assert(pushed[b].0 == account@);
                            assert(old_views[a].0 == self.entries@[a].0@);
                        }
                    }
                }
            },
        }
    }

    /// Returns the stored secret for the account, or nothing when the
    /// account is absent.
    pub fn lookup(&self, account: &String) -> (r: Option<String>)
        requires
            self.wf(),
        ensures
            r matches Some(s) ==> self@.contains_key(account@) && s@ == self@[account@],
            r is None ==> !self@.contains_key(account@),
    {
        let n = self.entries.len();
        let mut i: usize = 0;
        while i < n
            invariant
                n == self.entries@.len(),
                i <= n,
                self.wf(),
                forall|t: int| 0 <= t < i ==> self.entries@[t].0@ != account@,
            decreases n - i,
        {
            if self.entries[i].0 == *account {
                proof {
                    lemma_map_of_index(self.entry_views(), i as int);
                }
                return Some(self.entries[i].1.clone());
            }
            i = i + 1;
        }
        proof {
            lemma_map_of_contains(self.entry_views(), account@);
        }
        None
    }

    /// Lists the stored account names, each exactly once, in storage order
    /// (no particular order is promised).
    pub fn enumerate(&self) -> (r: Vec<String>)
        requires
            self.wf(),
        ensures
            forall|i: int| 0 <= i < r@.len() ==> self@.contains_key(r@[i]@),
            forall|k: Seq<char>| self@.contains_key(k) ==> exists|i: int|
                0 <= i < r@.len() && r@[i]@ == k,
            forall|i: int, j: int| 0 <= i < j < r@.len() ==> r@[i]@ != r@[j]@,
    {
        let n = self.entries.len();
        let mut out: Vec<String> = Vec::new();
        let mut i: usize = 0;
        while i < n
            invariant
                n == self.entries@.len(),
                i <= n,
                self.wf(),
                out@.len() == i,
                forall|t: int| 0 <= t < i ==> out@[t]@ == self.entries@[t].0@,
            decreases n - i,
        {
            out.push(self.entries[i].0.clone());
            i = i + 1;
        }
        proof {
            assert forall|t: int| 0 <= t < out@.len() implies self@.contains_key(out@[t]@) by {
                lemma_map_of_index(self.entry_views(), t);
            }
            assert forall|k: Seq<char>| self@.contains_key(k) implies exists|t: int|
                0 <= t < out@.len() && out@[t]@ == k by {
                lemma_map_of_contains(self.entry_views(), k);
                let w = choose|w: int|
                    0 <= w < self.entry_views().len() && self.entry_views()[w].0 == k;
                assert(out@[w]@ == k);
            }
            assert forall|a: int, b: int| 0 <= a < b < out@.len() implies out@[a]@ != out@[b]@ by {
                assert(self.entry_views()[a].0 == self.entries@[a].0@);
                assert(self.entry_views()[b].0 == self.entries@[b].0@);
                assert(self.entry_views()[a].0 != self.entry_views()[b].0);
            }
        }
        out
    }

    /// The store holding the given entries, a later entry overriding an
    /// earlier one with the same account name.
    fn from_entries(list: Vec<(String, String)>) -> (s: Self)
        ensures
            s.wf(),
            s@ == map_of(codec::entry_views(list@)),
    {
        let mut s = CredentialStore::new();
        let n = list.len();
        let mut i: usize = 0;
        proof {
            assert(codec::entry_views(list@.take(0)) =~= Seq::<(Seq<char>, Seq<char>)>::empty());
        }
        while i < n
            invariant
                i <= n,
                n == list@.len(),
                s.wf(),
                s@ == map_of(codec::entry_views(list@.take(i as int))),
            decreases n - i,
        {
            let account = list[i].0.clone();
            let secret = list[i].1.clone();
            s.upsert(account, secret);
            proof {
                let pre = codec::entry_views(list@.take(i as int));
                let post = codec::entry_views(list@.take(i + 1 as int));
                assert(post.drop_last() =~= pre);
                assert(post.last() == (list@[i as int].0@, list@[i as int].1@));
            }
            i = i + 1;
        }
        proof {
            assert(list@.take(n as int) =~= list@);
        }
        s
    }

    /// The store a decrypted plaintext denotes, with the lenient fallback
    /// to the empty store on bytes that are not a well-formed encoding.
    pub fn from_plaintext(pt: &Vec<u8>) -> (s: Self)
        ensures
            s.wf(),
            s@ == store_of_plaintext(pt@),
    {
        match crypto::bytes_to_string(pt) {
            None => CredentialStore::new(),
            Some(text) => {
                let cs = str_chars(text.as_str());
                match codec::decode(&cs) {
                    Some(entries) => CredentialStore::from_entries(entries),
                    None => CredentialStore::new(),
                }
            },
        }
    }

    /// Seals the store under the key: the encoded mapping, encrypted, with
    /// the authentication tag appended — the single persisted artifact.
    /// Fails only when the encoding is too long to seal, which would take a
    /// store of gigabytes.
    pub fn sealed_blob(&self, key: &Vec<u8>) -> (r: Option<Vec<u8>>)
        requires
            self.wf(),
            key@.len() == 32,
        ensures
            r matches Some(b) ==> b@ == crypto::sealed(
                key@,
                encode_utf8(codec::spec_encode(self.entry_views())),
            ) && b@.len() >= 16,
            r is None ==> encode_utf8(codec::spec_encode(self.entry_views())).len()
                >= crypto::MAX_PLAINTEXT_LEN,
    {
        let chars = codec::encode(&self.entries);
        let text = crypto::chars_to_string(&chars);
        let bytes = text.as_bytes_vec();
        if (bytes.len() as u64) < crypto::MAX_PLAINTEXT_LEN {
            Some(crypto::aead_seal(key, &bytes))
        } else {
            None
        }
    }

    /// Loads a store from what was read from disk. No file means the empty
    /// store of a first run. A present blob must authenticate under the
    /// key — a wrong passphrase and a tampered file fail alike — and its
    /// plaintext then decodes leniently. In particular, a blob sealed from
    /// an encoded entry sequence loads back to exactly that mapping.
    pub fn load(contents: &Option<Vec<u8>>, key: &Vec<u8>) -> (r: Result<Self, LoadError>)
        requires
            key@.len() == 32,
        ensures
            contents is None ==> (r matches Ok(s) && s.wf() && s@ == Map::<
                Seq<char>,
                Seq<char>,
            >::empty()),
            r matches Err(e) ==> e is AuthenticationFailure,
            contents matches Some(b) ==> ((r is Err) <==> (forall|pt: Seq<u8>|
                b@ != crypto::sealed(key@, pt))),
            contents matches Some(b) ==> (r matches Ok(s) ==> s.wf() && exists|pt: Seq<u8>|
                b@ == crypto::sealed(key@, pt) && s@ == store_of_plaintext(pt)),
            contents matches Some(b) ==> forall|es: Seq<(Seq<char>, Seq<char>)>|
                b@ == crypto::sealed(key@, encode_utf8(codec::spec_encode(es))) ==> (r matches Ok(
                    s,
                ) && s@ == map_of(es)),
    {
        match contents {
            None => Ok(CredentialStore::new()),
            Some(blob) => {
                match crypto::aead_open(key, blob) {
                    None => Err(LoadError::AuthenticationFailure),
                    Some(pt) => {
                        let s = CredentialStore::from_plaintext(&pt);
                        proof {
                            assert(blob@ == crypto::sealed(key@, pt@));
                            assert(exists|q: Seq<u8>|
                                blob@ == crypto::sealed(key@, q) && s@ == store_of_plaintext(q));
                            assert forall|es: Seq<(Seq<char>, Seq<char>)>|
                                blob@ == crypto::sealed(
                                    key@,
                                    encode_utf8(codec::spec_encode(es)),
                                ) implies s@ == map_of(es) by {
                                assert(pt@ == encode_utf8(codec::spec_encode(es)));
                                lemma_plaintext_round_trip(es);
                            }
                        }
                        Ok(s)
                    },
                }
            },
        }
    }
}

} // verus!

