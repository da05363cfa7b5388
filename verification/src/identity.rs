//! Per-user identity store.
//!
//! Each user has one stable subdomain (the public address) and one secret token
//! (proves ownership). Only the SHA-256 of the token is kept, which is the exact key
//! the HMAC challenge uses, so the plaintext token is shown to the user once at
//! issuance and never stored on the relay.

use vstd::hash_map::StringHashMap;
use vstd::prelude::*;
use vstd::string::*;
use vstd::utf8::encode_utf8;

use crate::auth::token_key_of;
use crate::crypto::{
    hex_bytes, hex_decode, hex_encode, hex_text, law_hex_round_trip, sha256, sha256_digest,
};
use crate::random::{
    is_v4, number_in, numbered_uuid, other_uuid, random_below, random_uuid, unix_seconds,
    uuid_simple,
};
use crate::shared::{law_labels_are_spelled, valid_label, Uuid};
use crate::text::string_from_chars;

verus! {

/// Number of characters of a subdomain.
pub const SUBDOMAIN_LEN: usize = 6;

/// Number of characters a subdomain is made of: `a` to `z` and `0` to `9`.
pub const ALPHABET_LEN: usize = 36;

/// The character of the subdomain alphabet at an index.
pub open spec fn alphabet(i: nat) -> char
    recommends
        i < ALPHABET_LEN,
{
    if i < 26 {
        (('a' as nat) + i) as char
    } else {
        (('0' as nat) + i - 26) as char
    }
}

/// Whether each character is one of the subdomain alphabet.
pub open spec fn in_alphabet(s: Seq<char>) -> bool {
    forall|i: int| 0 <= i < s.len() ==> ('a' <= #[trigger] s[i] <= 'z' || '0' <= s[i] <= '9')
}

/// The index of a character in the subdomain alphabet.
pub open spec fn rank(c: char) -> int {
    if 'a' <= c <= 'z' {
        c as int - 'a' as int
    } else {
        c as int - '0' as int + 26
    }
}

/// Whether one text comes before another of its length in the order of the alphabet.
pub open spec fn precedes(s: Seq<char>, t: Seq<char>) -> bool {
    exists|i: int|
        0 <= i < s.len() && i < t.len() && s.take(i) == t.take(i) && rank(#[trigger] s[i]) < rank(
            t[i],
        )
}

/// Six characters of the subdomain alphabet.
pub open spec fn is_subdomain(s: Seq<char>) -> bool {
    s.len() == SUBDOMAIN_LEN && in_alphabet(s)
}

/// Two random UUIDs in hexadecimal, of which the second is not the first again.
pub open spec fn is_token(t: Seq<char>) -> bool {
    exists|a: Seq<u8>, b: Seq<u8>|
        is_v4(a) && is_v4(b) && a != b && t == #[trigger] hex_text(a) + #[trigger] hex_text(b)
}

/// One issued identity. The token itself is not stored, only its hash.
#[derive(Debug)]
pub struct Identity {
    /// The subdomain.
    pub subdomain: String,
    /// Hex-encoded SHA-256 of the secret token.
    pub token_hash: String,
    /// Unix seconds when this identity was created.
    pub created_at: u64,
}

/// What an [`Identity`] holds.
pub struct IdentityView {
    /// The subdomain.
    pub subdomain: Seq<char>,
    /// Hex-encoded SHA-256 of the secret token.
    pub token_hash: Seq<char>,
    /// Unix seconds when this identity was created.
    pub created_at: u64,
}

impl View for Identity {
    type V = IdentityView;

    open spec fn view(&self) -> IdentityView {
        IdentityView {
            subdomain: self.subdomain@,
            token_hash: self.token_hash@,
            created_at: self.created_at,
        }
    }
}

/// The identities of a store, by subdomain.
pub type Identities = Map<Seq<char>, IdentityView>;

/// The identity issued for a subdomain with a token.
pub open spec fn issued_identity(
    subdomain: Seq<char>,
    token: Seq<char>,
    created_at: u64,
) -> IdentityView {
    IdentityView { subdomain, token_hash: hex_text(token_key_of(token)), created_at }
}

/// The HMAC key that a set of identities gives for a subdomain.
pub open spec fn key_in(identities: Identities, subdomain: Seq<char>) -> Option<Seq<u8>> {
    if identities.contains_key(subdomain) {
        hex_bytes(identities[subdomain].token_hash)
    } else {
        None
    }
}

/// The identities in a list of keyed entries; of two entries with one key the later
/// counts.
pub open spec fn entries_map(entries: Seq<(String, Identity)>) -> Identities
    decreases entries.len(),
{
    if entries.len() == 0 {
        Map::empty()
    } else {
        entries_map(entries.drop_last()).insert(entries.last().0@, entries.last().1@)
    }
}

/// Whether every subdomain is taken.
pub open spec fn all_taken(identities: Identities) -> bool {
    forall|s: Seq<char>| is_subdomain(s) ==> #[trigger] identities.contains_key(s)
}

/// Whether a token opens one of some identities.
pub open spec fn token_taken(identities: Identities, token: Seq<char>) -> bool {
    exists|s: Seq<char>| #[trigger] key_in(identities, s) == Some(token_key_of(token))
}

/// Whether each of some tokens, as many as there are numbers of 64 bits but one, opens one
/// of some identities.
pub open spec fn all_tokens_taken(identities: Identities, tokens: Set<Seq<char>>) -> bool {
    &&& tokens.finite()
    &&& tokens.len() == u64::MAX
    &&& forall|t: Seq<char>| #[trigger]
        tokens.contains(t) ==> is_token(t) && token_taken(identities, t)
}

/// Whether there are so many different tokens that open one of some identities.
pub open spec fn tokens_exhausted(identities: Identities) -> bool {
    exists|tokens: Set<Seq<char>>| #[trigger] all_tokens_taken(identities, tokens)
}

/// Whether no two entries have one key.
pub open spec fn keys_distinct(entries: Seq<(String, Identity)>) -> bool {
    forall|i: int, j: int|
        0 <= i < j < entries.len() ==> (#[trigger] entries[i]).0@ != (#[trigger] entries[j]).0@
}

/// Whether an entry is among some.
pub open spec fn has_entry(
    entries: Seq<(String, Identity)>,
    key: Seq<char>,
    identity: IdentityView,
) -> bool {
    exists|i: int|
        0 <= i < entries.len() && (#[trigger] entries[i]).0@ == key && entries[i].1@ == identity
}

/// Store of issued identities.
pub struct IdentityStore {
    entries: Vec<(String, Identity)>,
    /// Position in `entries` of each key.
    index: StringHashMap<usize>,
}

impl View for IdentityStore {
    type V = Identities;

    closed spec fn view(&self) -> Identities {
        Map::new(
            |k: Seq<char>| self.index@.contains_key(k),
            |k: Seq<char>| self.entries@[self.index@[k] as int].1@,
        )
    }
}

impl IdentityStore {
    /// Every entry is found under its own key and nothing else is found.
    pub closed spec fn wf(&self) -> bool {
        &&& forall|i: int|
            0 <= i < self.entries@.len() ==> {
                &&& self.index@.contains_key((#[trigger] self.entries@[i]).0@)
                &&& self.index@[self.entries@[i].0@] == i
            }
        &&& forall|k: Seq<char>| #[trigger]
            self.index@.contains_key(k) ==> {
                &&& self.index@[k] < self.entries@.len()
                &&& self.entries@[self.index@[k] as int].0@ == k
            }
    }

    /// A store with no identity.
    fn empty() -> (res: IdentityStore)
        ensures
            res.wf(),
            res@ == Map::<Seq<char>, IdentityView>::empty(),
    {
        let res: IdentityStore = IdentityStore {
            entries: Vec::new(),
            index: StringHashMap::new(),
        };
        assert(res@ =~= Map::<Seq<char>, IdentityView>::empty());
        res
    }

    /// Adds an entry, or replaces the one with the same key.
    fn put(&mut self, key: String, identity: Identity)
        requires
            old(self).wf(),
        ensures
            final(self).wf(),
            final(self)@ == old(self)@.insert(key@, identity@),
    {
        let ghost before = self@;
        let found: Option<usize> = match self.index.get(key.as_str()) {
            Some(i) => Some(*i),
            None => None,
        };
        match found {
            Some(i) => {
                let entry: (String, Identity) = (key, identity);
                self.entries.set(i, entry);
                assert(self@ =~= before.insert(entry.0@, entry.1@));
            },
            None => {
                let i: usize = self.entries.len();
                self.index.insert(key.clone(), i);
                let entry: (String, Identity) = (key, identity);
                self.entries.push(entry);
                assert(self@ =~= before.insert(entry.0@, entry.1@));
            },
        }
    }

    /// The store that was saved as a list of keyed entries, or an empty one where
    /// nothing was saved.
    pub fn load(saved: Option<Vec<(String, Identity)>>) -> (res: IdentityStore)
        ensures
            res.wf(),
            res@ == match saved {
                Some(entries) => entries_map(entries@),
                None => Map::empty(),
            },
    {
        let mut store: IdentityStore = IdentityStore::empty();
        match saved {
            Some(entries) => {
                let mut rest: Vec<(String, Identity)> = entries;
                let mut ordered: Vec<(String, Identity)> = Vec::new();
                let ghost all = rest@;
                while rest.len() > 0
                    invariant
                        rest@.len() + ordered@.len() == all.len(),
                        rest@ == all.take(rest@.len() as int),
                        forall|i: int|
                            0 <= i < ordered@.len() ==> #[trigger] ordered@[i] == all[all.len() - 1
                                - i],
                    decreases rest@.len(),
                {
                    match rest.pop() {
                        Some(entry) => {
                            ordered.push(entry);
                        },
                        None => {},
                    }
                }
                assert(all.take(0) =~= Seq::empty());
                while ordered.len() > 0
                    invariant
                        store.wf(),
                        ordered@.len() <= all.len(),
                        forall|i: int|
                            0 <= i < ordered@.len() ==> #[trigger] ordered@[i] == all[all.len() - 1
                                - i],
                        store@ == entries_map(all.take(all.len() - ordered@.len())),
                    decreases ordered@.len(),
                {
                    let ghost done = all.len() - ordered@.len();
                    match ordered.pop() {
                        Some(entry) => {
                            assert(all.take(done + 1).drop_last() =~= all.take(done));
                            store.put(entry.0, entry.1);
                        },
                        None => {},
                    }
                }
                assert(all.take(all.len() as int) =~= all);
            },
            None => {},
        }
        store
    }

    /// The keyed entries to save.
    pub fn entries(&self) -> (res: &Vec<(String, Identity)>)
        requires
            self.wf(),
        ensures
            entries_map(res@) == self@,
            keys_distinct(res@),
    {
        proof {
            self.lemma_entries(self.entries@.len() as int);
            assert(self.entries@.take(self.entries@.len() as int) =~= self.entries@);
            assert(entries_map(self.entries@) =~= self@);
            assert forall|i: int, j: int| 0 <= i < j < self.entries@.len() implies (
            #[trigger] self.entries@[i]).0@ != (#[trigger] self.entries@[j]).0@ by {
                assert(self.index@[self.entries@[i].0@] == i);
                assert(self.index@[self.entries@[j].0@] == j);
            }
        }
        &self.entries
    }

    proof fn lemma_entries(&self, n: int)
        requires
            self.wf(),
            0 <= n <= self.entries@.len(),
        ensures
            forall|k: Seq<char>| #[trigger]
                entries_map(self.entries@.take(n)).contains_key(k) <==> (
                self.index@.contains_key(k) && self.index@[k] < n),
            forall|k: Seq<char>| #[trigger]
                entries_map(self.entries@.take(n)).contains_key(k) ==> entries_map(
                    self.entries@.take(n),
                )[k] == self@[k],
        decreases n,
    {
        if n > 0 {
            self.lemma_entries(n - 1);
            let shorter = self.entries@.take(n - 1);
            let longer = self.entries@.take(n);
            let last = self.entries@[n - 1];
            assert(longer.drop_last() =~= shorter);
            assert(longer.last() == last);
            assert(entries_map(longer) == entries_map(shorter).insert(last.0@, last.1@));
            assert forall|k: Seq<char>| #[trigger] entries_map(longer).contains_key(k) <==> (
            self.index@.contains_key(k) && self.index@[k] < n) by {
                assert(entries_map(shorter).contains_key(k) <==> (self.index@.contains_key(k)
                    && self.index@[k] < n - 1));
            }
            assert forall|k: Seq<char>| #[trigger]
                entries_map(longer).contains_key(k) implies entries_map(longer)[k] == self@[k] by {
                if k != last.0@ {
                    assert(entries_map(shorter).contains_key(k));
                }
            }
        }
    }

    /// A store holds finitely many identities.
    pub proof fn lemma_finite(&self)
        requires
            self.wf(),
        ensures
            self@.dom().finite(),
    {
        self.lemma_entries(self.entries@.len() as int);
        assert(self.entries@.take(self.entries@.len() as int) =~= self.entries@);
        assert(entries_map(self.entries@) =~= self@);
        lemma_entries_finite(self.entries@);
    }

    /// The number of identities.
    pub fn len(&self) -> (res: usize)
        ensures
            res == self@.len(),
    {
        assert(self@.dom() =~= self.index@.dom());
        self.index.len()
    }

    /// Adds the identity of a subdomain and its token, unless the subdomain is taken.
    /// Returns whether it was added.
    pub fn enroll(&mut self, subdomain: &String, token: &String, created_at: u64) -> (res: bool)
        requires
            old(self).wf(),
        ensures
            final(self).wf(),
            res == !old(self)@.contains_key(subdomain@),
            final(self)@ == (if res {
                old(self)@.insert(subdomain@, issued_identity(subdomain@, token@, created_at))
            } else {
                old(self)@
            }),
    {
        if self.index.contains_key(subdomain.as_str()) {
            return false;
        }
        let token_hash: String = hex_encode(
            sha256_digest(token.as_str().as_bytes()).as_slice(),
        );
        let identity: Identity = Identity {
            subdomain: subdomain.clone(),
            token_hash,
            created_at,
        };
        self.put(subdomain.clone(), identity);
        true
    }

    /// Issues a fresh identity. Returns `(subdomain, plaintext token)`; `None` exactly
    /// where every subdomain is taken.
    pub fn issue(&mut self) -> (res: Option<(String, String)>)
        requires
            old(self).wf(),
        ensures
            final(self).wf(),
            match res {
                Some((subdomain, token)) => {
                    &&& is_subdomain(subdomain@)
                    &&& is_token(token@)
                    &&& token_taken(old(self)@, token@) ==> tokens_exhausted(old(self)@)
                    &&& !old(self)@.contains_key(subdomain@)
                    &&& final(self)@ == old(self)@.insert(
                        subdomain@,
                        issued_identity(
                            subdomain@,
                            token@,
                            final(self)@[subdomain@].created_at,
                        ),
                    )
                },
                None => all_taken(old(self)@) && final(self)@ == old(self)@,
            },
    {
        match self.free_subdomain() {
            Some(subdomain) => {
                let token: String = self.fresh_token();
                let created_at: u64 = now();
                let _added: bool = self.enroll(&subdomain, &token, created_at);
                Some((subdomain, token))
            },
            None => None,
        }
    }

    /// A free subdomain, drawn at random; `None` exactly where every subdomain is taken.
    fn free_subdomain(&self) -> (res: Option<String>)
        requires
            self.wf(),
        ensures
            match res {
                Some(subdomain) => is_subdomain(subdomain@) && !self@.contains_key(subdomain@),
                None => all_taken(self@),
            },
    {
        let (drawn, _names) = self.draw_subdomain();
        match drawn {
            Some(subdomain) => Some(subdomain),
            None => {
                let mut prefix: Vec<char> = Vec::new();
                self.find_free(&mut prefix)
            },
        }
    }

    /// Whether a token opens an identity of the store.
    fn opens_identity(&self, token: &String) -> (res: bool)
        requires
            self.wf(),
        ensures
            res == token_taken(self@, token@),
    {
        let wanted: Vec<u8> = sha256_digest(token.as_str().as_bytes());
        let mut i: usize = 0;
        while i < self.entries.len()
            invariant
                self.wf(),
                i <= self.entries@.len(),
                wanted@ == token_key_of(token@),
                forall|j: int|
                    0 <= j < i ==> hex_bytes((#[trigger] self.entries@[j]).1@.token_hash) != Some(
                        token_key_of(token@),
                    ),
            decreases self.entries@.len() - i,
        {
            if let Some(key) = hex_decode(self.entries[i].1.token_hash.as_str()) {
                if same_bytes(key.as_slice(), wanted.as_slice()) {
                    assert(key_in(self@, self.entries@[i as int].0@) == Some(token_key_of(token@)));
                    return true;
                }
            }
            i = i + 1;
        }
        assert forall|s: Seq<char>| #[trigger] key_in(self@, s) != Some(token_key_of(token@)) by {
            if self@.contains_key(s) {
                assert(self@[s] == self.entries@[self.index@[s] as int].1@);
            }
        }
        false
    }

    /// A token, drawn at random, that opens no identity of the store, as long as there is
    /// one among very many.
    fn fresh_token(&self) -> (res: String)
        requires
            self.wf(),
        ensures
            is_token(res@),
            token_taken(self@, res@) ==> tokens_exhausted(self@),
    {
        let mut left: u64 = u64::MAX;
        while left > 0
            invariant
                self.wf(),
            decreases left,
        {
            let token: String = random_token();
            if !self.opens_identity(&token) {
                return token;
            }
            left = left - 1;
        }
        let mut n: u64 = 0;
        let ghost mut tried: Set<Seq<char>> = Set::empty();
        while n < u64::MAX
            invariant
                self.wf(),
                tried.finite(),
                tried.len() == n,
                forall|t: Seq<char>| #[trigger]
                    tried.contains(t) ==> is_token(t) && token_taken(self@, t),
                forall|t: Seq<char>| #[trigger]
                    tried.contains(t) ==> hex_bytes(t.take(32)) is Some && number_in(
                        hex_bytes(t.take(32)).unwrap(),
                    ) < n,
            decreases u64::MAX - n,
        {
            let first: Uuid = numbered_uuid(n);
            let second: Uuid = numbered_uuid(n + 1);
            let token: String = token_from(&first, &second);
            assert(is_token(token@));
            if !self.opens_identity(&token) {
                return token;
            }
            proof {
                assert(token@.take(32) =~= hex_text(first@));
                law_hex_round_trip(first@);
                assert(!tried.contains(token@));
                tried = tried.insert(token@);
            }
            n = n + 1;
        }
        assert(all_tokens_taken(self@, tried));
        random_token()
    }

    /// The first free subdomain, in the order of the alphabet, that begins with a prefix;
    /// `None` exactly where each of them is taken.
    pub fn find_free(&self, prefix: &mut Vec<char>) -> (res: Option<String>)
        requires
            self.wf(),
            old(prefix)@.len() <= SUBDOMAIN_LEN,
            in_alphabet(old(prefix)@),
        ensures
            final(prefix)@ == old(prefix)@,
            match res {
                Some(subdomain) => {
                    &&& is_subdomain(subdomain@)
                    &&& old(prefix)@.is_prefix_of(subdomain@)
                    &&& !self@.contains_key(subdomain@)
                    &&& forall|s: Seq<char>|
                        is_subdomain(s) && old(prefix)@.is_prefix_of(s) && precedes(
                            s,
                            subdomain@,
                        ) ==> #[trigger] self@.contains_key(s)
                },
                None => forall|s: Seq<char>|
                    is_subdomain(s) && old(prefix)@.is_prefix_of(s)
                        ==> #[trigger] self@.contains_key(s),
            },
        decreases SUBDOMAIN_LEN - old(prefix)@.len(),
    {
        let ghost start = prefix@;
        if prefix.len() == SUBDOMAIN_LEN {
            let candidate: String = string_from_chars(prefix.as_slice());
            proof {
                assert forall|s: Seq<char>|
                    is_subdomain(s) && start.is_prefix_of(s) implies s == start by {
                    assert(s.take(SUBDOMAIN_LEN as int) =~= s);
                }
                lemma_precedes_not_self(start);
            }
            return if self.index.contains_key(candidate.as_str()) {
                None
            } else {
                assert(start.is_prefix_of(candidate@)) by {
                    assert(candidate@.take(SUBDOMAIN_LEN as int) =~= candidate@);
                }
                Some(candidate)
            };
        }
        let mut i: usize = 0;
        while i < ALPHABET_LEN
            invariant
                self.wf(),
                prefix@ == start,
                start == old(prefix)@,
                start.len() < SUBDOMAIN_LEN,
                in_alphabet(start),
                i <= ALPHABET_LEN,
                forall|s: Seq<char>|
                    is_subdomain(s) && start.is_prefix_of(s) && rank(s[start.len() as int]) < i
                        ==> #[trigger] self@.contains_key(s),
            decreases ALPHABET_LEN - i,
        {
            let c: char = alphabet_char(i);
            prefix.push(c);
            let ghost longer = prefix@;
            let found: Option<String> = self.find_free(prefix);
            let _last: Option<char> = prefix.pop();
            assert(prefix@ =~= start);
            proof {
                assert(rank(c) == i);
                assert forall|s: Seq<char>|
                    is_subdomain(s) && start.is_prefix_of(s) implies (longer.is_prefix_of(s) <==> rank(
                    s[start.len() as int],
                ) == i) by {
                    lemma_prefix_grows(start, c, s);
                }
            }
            if let Some(subdomain) = found {
                proof {
                    lemma_prefix_grows(start, c, subdomain@);
                    assert forall|s: Seq<char>|
                        is_subdomain(s) && start.is_prefix_of(s) && precedes(
                            s,
                            subdomain@,
                        ) implies #[trigger] self@.contains_key(s) by {
                        lemma_precedes_at(s, subdomain@, start);
                    }
                }
                return Some(subdomain);
            }
            i = i + 1;
        }
        assert forall|s: Seq<char>|
            is_subdomain(s) && start.is_prefix_of(s) implies #[trigger] self@.contains_key(s) by {
            assert('a' <= s[start.len() as int] <= 'z' || '0' <= s[start.len() as int] <= '9');
        }
        None
    }

    /// Draws subdomains until one is free, with all that were drawn; `None` where
    /// `u64::MAX` draws gave taken ones alone.
    fn draw_subdomain(&self) -> (res: (Option<String>, Ghost<Seq<Seq<char>>>))
        requires
            self.wf(),
        ensures
            forall|i: int| 0 <= i < res.1@.len() ==> is_subdomain(#[trigger] res.1@[i]),
            match res.0 {
                Some(subdomain) => {
                    &&& 0 < res.1@.len() <= u64::MAX
                    &&& res.1@.last() == subdomain@
                    &&& !self@.contains_key(subdomain@)
                    &&& forall|i: int|
                        0 <= i < res.1@.len() - 1 ==> self@.contains_key(#[trigger] res.1@[i])
                },
                None => {
                    &&& res.1@.len() == u64::MAX
                    &&& forall|i: int|
                        0 <= i < res.1@.len() ==> self@.contains_key(#[trigger] res.1@[i])
                },
            },
    {
        let mut left: u64 = u64::MAX;
        let ghost mut drawn: Seq<Seq<char>> = Seq::empty();
        while left > 0
            invariant
                drawn.len() + left == u64::MAX,
                forall|i: int|
                    0 <= i < drawn.len() ==> is_subdomain(#[trigger] drawn[i])
                        && self@.contains_key(drawn[i]),
            decreases left,
        {
            let subdomain: String = random_subdomain();
            proof {
                drawn = drawn.push(subdomain@);
            }
            if !self.index.contains_key(subdomain.as_str()) {
                return (Some(subdomain), Ghost(drawn));
            }
            left = left - 1;
        }
        (None, Ghost(drawn))
    }

    /// The HMAC key (raw SHA-256 of the token) for a known subdomain, if any.
    pub fn token_key(&self, subdomain: &str) -> (res: Option<Vec<u8>>)
        requires
            self.wf(),
        ensures
            match res {
                Some(key) => key_in(self@, subdomain@) == Some(key@),
                None => key_in(self@, subdomain@) is None,
            },
    {
        match self.index.get(subdomain) {
            Some(i) => hex_decode(self.entries[*i].1.token_hash.as_str()),
            None => None,
        }
    }
}

proof fn lemma_precedes_not_self(s: Seq<char>)
    ensures
        !precedes(s, s),
{
}

proof fn lemma_prefix_grows(start: Seq<char>, c: char, s: Seq<char>)
    requires
        start.len() < s.len(),
        'a' <= c <= 'z' || '0' <= c <= '9',
        in_alphabet(s),
    ensures
        start.push(c).is_prefix_of(s) ==> start.is_prefix_of(s) && s[start.len() as int] == c,
        start.is_prefix_of(s) ==> (start.push(c).is_prefix_of(s) <==> rank(s[start.len() as int])
            == rank(c)),
{
    let n = start.len() as int;
    assert('a' <= s[n] <= 'z' || '0' <= s[n] <= '9');
    if start.push(c).is_prefix_of(s) {
        assert(start.push(c)[n] == s.take(n + 1)[n]);
        assert(s.take(n) =~= s.take(n + 1).take(n));
        assert(start.push(c).take(n) =~= start);
    }
    if start.is_prefix_of(s) && rank(s[n]) == rank(c) {
        assert(s[n] == c);
        assert(s.take(n + 1) =~= s.take(n).push(c));
    }
}

/// Where one text comes before another and both begin with a prefix, it is no later at the
/// character that follows.
proof fn lemma_precedes_at(s: Seq<char>, t: Seq<char>, start: Seq<char>)
    requires
        precedes(s, t),
        start.is_prefix_of(s),
        start.is_prefix_of(t),
        start.len() < s.len() == t.len(),
    ensures
        rank(s[start.len() as int]) <= rank(t[start.len() as int]),
{
    let n = start.len() as int;
    let i = choose|i: int|
        0 <= i < s.len() && i < t.len() && s.take(i) == t.take(i) && rank(#[trigger] s[i]) < rank(
            t[i],
        );
    if i < n {
        assert(s.take(n)[i] == s[i]);
        assert(t.take(n)[i] == t[i]);
    } else if i > n {
        assert(s.take(i)[n] == s[n]);
        assert(t.take(i)[n] == t[n]);
    }
}

proof fn lemma_entries_finite(entries: Seq<(String, Identity)>)
    ensures
        entries_map(entries).dom().finite(),
    decreases entries.len(),
{
    if entries.len() > 0 {
        lemma_entries_finite(entries.drop_last());
    }
}

/// Whether two byte strings are the same.
fn same_bytes(a: &[u8], b: &[u8]) -> (res: bool)
    ensures
        res == (a@ == b@),
{
    if a.len() != b.len() {
        return false;
    }
    let mut i: usize = 0;
    while i < a.len()
        invariant
            a@.len() == b@.len(),
            i <= a@.len(),
            forall|j: int| 0 <= j < i ==> #[trigger] a@[j] == b@[j],
        decreases a@.len() - i,
    {
        if a[i] != b[i] {
            assert(a@[i as int] != b@[i as int]);
            return false;
        }
        i = i + 1;
    }
    assert(a@ =~= b@);
    true
}

/// Seconds since the Unix epoch on the system clock, or zero for a clock set before it.
pub fn now() -> u64 {
    seconds_or_zero(unix_seconds())
}

/// The seconds read from the clock, or zero where it gave none.
pub fn seconds_or_zero(seconds: Option<u64>) -> (res: u64)
    ensures
        res == (match seconds {
            Some(s) => s,
            None => 0,
        }),
{
    match seconds {
        Some(s) => s,
        None => 0,
    }
}

/// The character of the subdomain alphabet at an index.
pub fn alphabet_char(i: usize) -> (res: char)
    requires
        i < ALPHABET_LEN,
    ensures
        res == alphabet(i as nat),
        'a' <= res <= 'z' || '0' <= res <= '9',
{
    if i < 26 {
        ('a' as u8 + i as u8) as char
    } else {
        ('0' as u8 + (i - 26) as u8) as char
    }
}

/// The subdomain spelled by indices into the alphabet.
pub fn subdomain_from(indices: &[usize]) -> (res: String)
    requires
        forall|i: int| 0 <= i < indices@.len() ==> #[trigger] indices@[i] < ALPHABET_LEN,
    ensures
        res@ == Seq::new(indices@.len(), |i: int| alphabet(indices@[i] as nat)),
        forall|i: int|
            0 <= i < res@.len() ==> ('a' <= #[trigger] res@[i] <= 'z' || '0' <= res@[i] <= '9'),
{
    let mut out: String = String::new();
    let mut i: usize = 0;
    while i < indices.len()
        invariant
            i <= indices@.len(),
            forall|j: int| 0 <= j < indices@.len() ==> #[trigger] indices@[j] < ALPHABET_LEN,
            out@ == Seq::new(i as nat, |j: int| alphabet(indices@[j] as nat)),
            forall|j: int|
                0 <= j < out@.len() ==> ('a' <= #[trigger] out@[j] <= 'z' || '0' <= out@[j]
                    <= '9'),
        decreases indices@.len() - i,
    {
        let ghost before = out@;
        out.push(alphabet_char(indices[i]));
        i = i + 1;
        assert(out@ =~= Seq::new(i as nat, |j: int| alphabet(indices@[j] as nat)));
    }
    out
}

/// A short, human-shareable subdomain. Not a secret.
pub fn random_subdomain() -> (res: String)
    ensures
        is_subdomain(res@),
{
    let mut indices: Vec<usize> = Vec::new();
    while indices.len() < SUBDOMAIN_LEN
        invariant
            indices@.len() <= SUBDOMAIN_LEN,
            forall|j: int| 0 <= j < indices@.len() ==> #[trigger] indices@[j] < ALPHABET_LEN,
        decreases SUBDOMAIN_LEN - indices@.len(),
    {
        indices.push(random_below(ALPHABET_LEN));
    }
    subdomain_from(indices.as_slice())
}

/// The token spelled by two UUIDs.
pub fn token_from(first: &Uuid, second: &Uuid) -> (res: String)
    ensures
        res@ == hex_text(first@) + hex_text(second@),
{
    let mut out: String = uuid_simple(first);
    out.append(uuid_simple(second).as_str());
    out
}

/// A 256-bit secret token (two version 4 UUIDs, hex-encoded).
pub fn random_token() -> (res: String)
    ensures
        is_token(res@),
{
    let first: Uuid = random_uuid();
    let second: Uuid = other_uuid(&first);
    token_from(&first, &second)
}

/// An issued token proves ownership of its subdomain and of no other: the store keeps
/// the key of exactly that token for the subdomain, and every identity issued before
/// keeps its own.
pub proof fn law_issued_key(
    identities: Identities,
    subdomain: Seq<char>,
    token: Seq<char>,
    created_at: u64,
    other: Seq<char>,
)
    ensures
        key_in(
            identities.insert(subdomain, issued_identity(subdomain, token, created_at)),
            subdomain,
        ) == Some(token_key_of(token)),
        other != subdomain ==> key_in(
            identities.insert(subdomain, issued_identity(subdomain, token, created_at)),
            other,
        ) == key_in(identities, other),
{
    law_hex_round_trip(token_key_of(token));
}

/// The plaintext token is not stored: two tokens with one hash leave the same identity.
pub proof fn law_only_the_hash_is_stored(
    subdomain: Seq<char>,
    token: Seq<char>,
    other: Seq<char>,
    created_at: u64,
)
    requires
        token_key_of(token) == token_key_of(other),
    ensures
        issued_identity(subdomain, token, created_at) == issued_identity(
            subdomain,
            other,
            created_at,
        ),
{
}

proof fn lemma_has_entry(entries: Seq<(String, Identity)>, key: Seq<char>)
    requires
        keys_distinct(entries),
    ensures
        forall|identity: IdentityView| #[trigger]
            has_entry(entries, key, identity) <==> (entries_map(entries).contains_key(key)
                && entries_map(entries)[key] == identity),
    decreases entries.len(),
{
    if entries.len() > 0 {
        let rest = entries.drop_last();
        let n = entries.len() - 1;
        assert forall|i: int, j: int| 0 <= i < j < rest.len() implies (#[trigger] rest[i]).0@ != (
        #[trigger] rest[j]).0@ by {
            assert(entries[i].0@ != entries[j].0@);
        }
        lemma_has_entry(rest, key);
        assert forall|identity: IdentityView| #[trigger]
            has_entry(entries, key, identity) <==> (entries_map(entries).contains_key(key)
                && entries_map(entries)[key] == identity) by {
            assert(has_entry(rest, key, identity) <==> (entries_map(rest).contains_key(key)
                && entries_map(rest)[key] == identity));
            if has_entry(rest, key, identity) {
                let i = choose|i: int|
                    0 <= i < rest.len() && (#[trigger] rest[i]).0@ == key && rest[i].1@ == identity;
                assert(entries[i] == rest[i]);
                assert(entries[i].0@ != entries[n].0@);
            }
            if has_entry(entries, key, identity) {
                let i = choose|i: int|
                    0 <= i < entries.len() && (#[trigger] entries[i]).0@ == key && entries[i].1@
                        == identity;
                if i < n {
                    assert(rest[i] == entries[i]);
                }
            }
            if entries[n].0@ == key && entries[n].1@ == identity {
                assert(has_entry(entries, key, identity));
            }
        }
    }
}

/// Identities survive a restart: a store loaded from the entries of another, in whatever
/// order they come back, holds the same identities.
pub proof fn law_reload_keeps_identities(
    saved: Seq<(String, Identity)>,
    loaded: Seq<(String, Identity)>,
)
    requires
        keys_distinct(saved),
        keys_distinct(loaded),
        forall|key: Seq<char>, identity: IdentityView| #[trigger]
            has_entry(saved, key, identity) <==> has_entry(loaded, key, identity),
    ensures
        entries_map(loaded) == entries_map(saved),
{
    let a = entries_map(saved);
    let b = entries_map(loaded);
    assert forall|key: Seq<char>| a.contains_key(key) <==> b.contains_key(key) by {
        lemma_has_entry(saved, key);
        lemma_has_entry(loaded, key);
        assert(has_entry(saved, key, a[key]) <==> has_entry(loaded, key, a[key]));
        assert(has_entry(saved, key, b[key]) <==> has_entry(loaded, key, b[key]));
    }
    assert forall|key: Seq<char>| a.contains_key(key) implies a[key] == b[key] by {
        lemma_has_entry(saved, key);
        lemma_has_entry(loaded, key);
        assert(has_entry(saved, key, a[key]) <==> has_entry(loaded, key, a[key]));
    }
    assert(a =~= b);
}

/// The subdomain alphabet, letter by letter: a subdomain is exactly six characters of it,
/// and each of its 36 characters stands at its own index.
pub proof fn law_subdomains_are_spelled(s: Seq<char>)
    ensures
        is_subdomain(s) <==> s.len() == 6 && (forall|i: int|
            0 <= i < s.len() ==> "abcdefghijklmnopqrstuvwxyz0123456789"@.contains(#[trigger] s[i])),
        forall|i: nat|
            i < 36 ==> #[trigger] alphabet(i) == "abcdefghijklmnopqrstuvwxyz0123456789"@[i as int],
        forall|i: nat| i < 36 ==> rank(#[trigger] alphabet(i)) == i,
{
    let all = "abcdefghijklmnopqrstuvwxyz0123456789"@;
    reveal_strlit("abcdefghijklmnopqrstuvwxyz0123456789");
    assert(all.len() == 36);
    assert forall|i: nat| i < 36 implies #[trigger] alphabet(i) == all[i as int] by {}
    assert forall|c: char| ('a' <= c <= 'z' || '0' <= c <= '9') <==> #[trigger] all.contains(c) by {
        if 'a' <= c <= 'z' || '0' <= c <= '9' {
            assert(all[rank(c)] == c);
        }
    }
}

/// Every issued subdomain can also be used as a label.
pub proof fn law_subdomain_is_label(subdomain: Seq<char>)
    requires
        is_subdomain(subdomain),
    ensures
        valid_label(subdomain),
{
    law_labels_are_spelled(subdomain);
}

/// What is stored of a new identity: its subdomain, when it was created, and of its token
/// the SHA-256 of the token's bytes in hexadecimal, which is what a challenge is checked
/// with.
pub proof fn law_identity_is_recorded(
    identities: Identities,
    subdomain: Seq<char>,
    token: Seq<char>,
    created_at: u64,
)
    ensures
        issued_identity(subdomain, token, created_at).subdomain == subdomain,
        issued_identity(subdomain, token, created_at).created_at == created_at,
        hex_bytes(issued_identity(subdomain, token, created_at).token_hash) == Some(
            sha256(encode_utf8(token)),
        ),
        identities.contains_key(subdomain) && identities[subdomain] == issued_identity(
            subdomain,
            token,
            created_at,
        ) ==> key_in(identities, subdomain) == Some(sha256(encode_utf8(token))),
        !identities.contains_key(subdomain) ==> key_in(identities, subdomain) is None,
{
    law_hex_round_trip(sha256(encode_utf8(token)));
}

/// Whether the entry at some place has a key.
pub open spec fn keyed_at(entries: Seq<(String, Identity)>, key: Seq<char>, i: int) -> bool {
    0 <= i < entries.len() && entries[i].0@ == key
}

/// Of the entries with one key the last counts, and there is an identity for the keys of
/// entries alone.
pub proof fn law_last_entry_counts(entries: Seq<(String, Identity)>, key: Seq<char>, i: int)
    ensures
        keyed_at(entries, key, i) && (forall|j: int|
            i < j < entries.len() ==> !(#[trigger] keyed_at(entries, key, j))) ==> entries_map(
            entries,
        ).get(key) == Some(entries[i].1@),
        (forall|j: int| !(#[trigger] keyed_at(entries, key, j))) ==> !entries_map(
            entries,
        ).contains_key(key),
    decreases entries.len(),
{
    if entries.len() > 0 {
        let n = entries.len() - 1;
        let rest = entries.drop_last();
        law_last_entry_counts(rest, key, i);
        assert forall|j: int| 0 <= j < n implies (#[trigger] keyed_at(entries, key, j)
            <==> keyed_at(rest, key, j)) by {
            assert(rest[j] == entries[j]);
        }
        assert(keyed_at(entries, key, n) <==> entries.last().0@ == key);
        if keyed_at(entries, key, i) && i < n && (forall|j: int|
            i < j < entries.len() ==> !(#[trigger] keyed_at(entries, key, j))) {
            assert(!keyed_at(entries, key, n));
            assert forall|j: int| i < j < rest.len() implies !(#[trigger] keyed_at(
                rest,
                key,
                j,
            )) by {
                assert(!keyed_at(entries, key, j));
            }
            assert(rest[i] == entries[i]);
        }
        if forall|j: int| !(#[trigger] keyed_at(entries, key, j)) {
            assert(!keyed_at(entries, key, n));
            assert forall|j: int| !(#[trigger] keyed_at(rest, key, j)) by {
                if 0 <= j < n {
                    assert(!keyed_at(entries, key, j));
                }
            }
        }
    }
}

/// A token is 64 lower-case hexadecimal digits: two halves that differ, each of which names
/// the version of a random identifier.
pub proof fn law_token_is_spelled(token: Seq<char>)
    requires
        is_token(token),
    ensures
        token.len() == 64,
        forall|i: int|
            0 <= i < 64 ==> ('0' <= #[trigger] token[i] <= '9' || 'a' <= token[i] <= 'f'),
        token[12] == '4',
        token[44] == '4',
        token[16] == '8' || token[16] == '9' || token[16] == 'a' || token[16] == 'b',
        token[48] == '8' || token[48] == '9' || token[48] == 'a' || token[48] == 'b',
        token.take(32) != token.skip(32),
{
    let (a, b) = choose|a: Seq<u8>, b: Seq<u8>|
        is_v4(a) && is_v4(b) && a != b && token == #[trigger] hex_text(a) + #[trigger] hex_text(b);
    assert(token.take(32) =~= hex_text(a));
    assert(token.skip(32) =~= hex_text(b));
    law_hex_round_trip(a);
    law_hex_round_trip(b);
    assert(token[12] == hex_text(a)[12]);
    assert(token[44] == hex_text(b)[12]);
    assert(token[16] == hex_text(a)[16]);
    assert(token[48] == hex_text(b)[16]);
    assert forall|i: int| 0 <= i < 64 implies ('0' <= #[trigger] token[i] <= '9' || 'a' <= token[i]
        <= 'f') by {
        if i < 32 {
            assert(token[i] == hex_text(a)[i]);
        } else {
            assert(token[i] == hex_text(b)[i - 32]);
        }
    }
}

} // verus!
