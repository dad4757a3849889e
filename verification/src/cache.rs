//! The table of answers, each with a time to live and the files it was built on.
//!
//! A key reads `<server_alias>|<scope>|<tool>|<sha256 of the arguments>`. Its
//! plain head makes it possible to drop the answers of one scope, its tail does
//! not depend on the order in which the arguments stand. A scope must not contain
//! `|`, else its prefix would cover the keys of another.

use crate::clock::{Clock, Moment, Span};
use crate::json;
use crate::json::{Json, JsonTree};
use crate::reverse_index;
use crate::reverse_index::ReverseIndex;
use crate::text;
use dashmap::DashMap;
use sha2::{Digest, Sha256};
use std::sync::Arc;
use vstd::prelude::*;

verus! {

/// `Arc::clone`: another handle on the same string.
#[verifier::external_body]
pub(crate) fn share(payload: &Arc<String>) -> (r: Arc<String>)
    ensures
        r@ == payload@,
{
    Arc::clone(payload)
}

/// What an entry holds.
pub struct EntryView {
    pub payload: Seq<char>,
    pub expires_at: Moment,
    pub recorded_at: Moment,
    pub files: Seq<Seq<char>>,
}

impl EntryView {
    /// Whether the entry may no longer be served at `now`.
    pub open spec fn expired(self, now: Moment) -> bool {
        now.nanos >= self.expires_at.nanos
    }

    /// Whether the entry was built on one of some files.
    pub open spec fn touches(self, paths: Seq<Seq<char>>) -> bool {
        exists|i: int| 0 <= i < paths.len() && self.files.contains(#[trigger] paths[i])
    }
}

/// The entry for an answer that comes in at `now`.
pub open spec fn fresh_entry(
    payload: Seq<char>,
    ttl: Span,
    files: Seq<Seq<char>>,
    now: Moment,
) -> EntryView {
    EntryView { payload, expires_at: now.after(ttl), recorded_at: now, files }
}

/// One answer in the cache.
#[derive(Debug)]
pub struct CacheEntry {
    /// The answer as JSON text.
    pub payload: Arc<String>,
    /// When the entry stops being served.
    pub expires_at: Moment,
    /// When the entry was made.
    pub recorded_at: Moment,
    /// The files that the answer was built on. Kept here so that the reverse
    /// index can be cleaned when the entry leaves the cache.
    pub dependent_files: Vec<String>,
}

impl View for CacheEntry {
    type V = EntryView;

    open spec fn view(&self) -> EntryView {
        EntryView {
            payload: self.payload@,
            expires_at: self.expires_at,
            recorded_at: self.recorded_at,
            files: text::texts(self.dependent_files@),
        }
    }
}

impl Clone for CacheEntry {
    fn clone(&self) -> (r: Self)
        ensures
            r@ == self@,
    {
        CacheEntry {
            payload: share(&self.payload),
            expires_at: self.expires_at,
            recorded_at: self.recorded_at,
            dependent_files: text::clone_texts(&self.dependent_files),
        }
    }
}

impl CacheEntry {
    /// An entry, made at `now`, of an answer that names no files.
    pub fn new(payload: Arc<String>, ttl: Span, now: Moment) -> (r: CacheEntry)
        ensures
            r@ == fresh_entry(payload@, ttl, Seq::empty(), now),
    {
        let none: Vec<String> = Vec::new();
        assert(text::texts(none@) =~= Seq::empty());
        CacheEntry::new_with_deps(payload, ttl, none, now)
    }

    /// An entry, made at `now`, of an answer that was built on some files.
    pub fn new_with_deps(
        payload: Arc<String>,
        ttl: Span,
        dependent_files: Vec<String>,
        now: Moment,
    ) -> (r: CacheEntry)
        ensures
            r@ == fresh_entry(payload@, ttl, text::texts(dependent_files@), now),
    {
        CacheEntry { payload, expires_at: now.plus(ttl), recorded_at: now, dependent_files }
    }

    /// Whether the entry may no longer be served at `now`.
    pub fn is_expired(&self, now: Moment) -> (r: bool)
        ensures
            r == self@.expired(now),
    {
        now.nanos >= self.expires_at.nanos
    }
}

/// The answers under their keys.
pub type Entries = Map<Seq<char>, EntryView>;

/// What the table of a cache holds.
pub uninterp spec fn entries_of(m: DashMap<String, CacheEntry>) -> Map<Seq<char>, EntryView>;

/// `DashMap::new`: an empty table.
#[verifier::external_body]
fn entries_new() -> (m: DashMap<String, CacheEntry>)
    ensures
        (entries_of(m) == Map::<Seq<char>, EntryView>::empty()),
{
    DashMap::new()
}

/// `DashMap::get`: a clone of the value under a key, if there is one.
#[verifier::external_body]
fn entries_get(m: &DashMap<String, CacheEntry>, key: &str) -> (r: Option<CacheEntry>)
    ensures
        (match r {
            Some(entry) => entries_of(*m).contains_key(key@) && entries_of(*m)[key@] == entry@,
            None => !entries_of(*m).contains_key(key@),
        }),
{
    m.get(key).map(|entry| entry.value().clone())
}

/// `DashMap::insert`: a value under a key, in place of the one before.
#[verifier::external_body]
fn entries_insert(m: &mut DashMap<String, CacheEntry>, key: String, entry: CacheEntry)
    ensures
        entries_of(*final(m)) == entries_of(*old(m)).insert(key@, entry@),
{
    m.insert(key, entry);
}

/// `DashMap::remove`: no value under a key any more.
#[verifier::external_body]
fn entries_remove(m: &mut DashMap<String, CacheEntry>, key: &str)
    ensures
        entries_of(*final(m)) == entries_of(*old(m)).remove(key@),
{
    m.remove(key);
}

/// `DashMap::iter`: clones of the keys, each of them once. Their order is left open.
#[verifier::external_body]
fn entries_keys(m: &DashMap<String, CacheEntry>) -> (r: Vec<String>)
    ensures
        text::texts(r@).no_duplicates(),
        text::texts(r@).to_set() == entries_of(*m).dom(),
{
    m.iter().map(|entry| entry.key().clone()).collect()
}

/// `DashMap::len`: the number of keys.
#[verifier::external_body]
fn entries_len(m: &DashMap<String, CacheEntry>) -> (r: usize)
    ensures
        r == entries_of(*m).dom().len(),
{
    m.len()
}

/// `DashMap::clear`: an empty table.
#[verifier::external_body]
fn entries_clear(m: &mut DashMap<String, CacheEntry>)
    ensures
        (entries_of(*final(m)) == Map::<Seq<char>, EntryView>::empty()),
{
    m.clear();
}

/// The SHA-256 digest of some bytes.
pub uninterp spec fn sha256_digest(bytes: Seq<u8>) -> Seq<u8>;

/// `Digest::digest` of `sha2::Sha256`: a digest of 32 bytes.
#[verifier::external_body]
fn sha256(bytes: &[u8]) -> (r: Vec<u8>)
    ensures
        r@ == sha256_digest(bytes@),
        r@.len() == 32,
{
    Sha256::digest(bytes).to_vec()
}

/// A hexadecimal digit, in lower case.
pub open spec fn hex_digit(d: u8) -> char {
    if d < 10 {
        (48 + d) as char
    } else {
        (87 + d) as char
    }
}

/// Two hexadecimal digits for each byte, the higher one first.
pub open spec fn hex_digits(bytes: Seq<u8>) -> Seq<char> {
    Seq::new(
        2 * bytes.len(),
        |i: int|
            hex_digit(
                if i % 2 == 0 {
                    bytes[i / 2] / 16
                } else {
                    bytes[i / 2] % 16
                },
            ),
    )
}

/// Whether every character is a hexadecimal digit in lower case.
pub open spec fn is_lower_hex(s: Seq<char>) -> bool {
    forall|i: int|
        0 <= i < s.len() ==> '0' <= #[trigger] s[i] <= '9' || 'a' <= s[i] <= 'f'
}

/// Two lower case digits for each byte are lower case digits.
proof fn lemma_hex_digits(bytes: Seq<u8>)
    ensures
        hex_digits(bytes).len() == 2 * bytes.len(),
        is_lower_hex(hex_digits(bytes)),
{
    let s = hex_digits(bytes);
    assert forall|i: int| 0 <= i < s.len() implies '0' <= #[trigger] s[i] <= '9' || 'a' <= s[i]
        <= 'f' by {
        let d: u8 = if i % 2 == 0 {
            bytes[i / 2] / 16
        } else {
            bytes[i / 2] % 16
        };
        assert(d < 16);
        assert(s[i] == hex_digit(d));
    }
}

/// `hex::encode`: two lower case digits for each byte, the higher one first.
#[verifier::external_body]
fn hex_text(bytes: &Vec<u8>) -> (r: String)
    ensures
        r@ == hex_digits(bytes@),
{
    hex::encode(bytes)
}

/// The arguments of a call as text that does not depend on the order of members.
pub open spec fn normal_text(args: JsonTree) -> Seq<char> {
    json::json_printed(args.sorted())
}

/// The tail of a key.
pub open spec fn args_hash(args: JsonTree) -> Seq<char> {
    hex_digits(sha256_digest(vstd::utf8::encode_utf8(normal_text(args))))
}

/// The head of the keys of a scope.
pub open spec fn prefix_of(server_alias: Seq<char>, scope: Seq<char>) -> Seq<char> {
    server_alias + seq!['|'] + scope + seq!['|']
}

/// The key of a call.
pub open spec fn cache_key(
    server_alias: Seq<char>,
    scope: Seq<char>,
    tool: Seq<char>,
    args: JsonTree,
) -> Seq<char> {
    prefix_of(server_alias, scope) + tool + seq!['|'] + args_hash(args)
}

/// Whether an entry that may be served at `now` is under a key.
pub open spec fn live(entries: Entries, key: Seq<char>, now: Moment) -> bool {
    entries.contains_key(key) && !entries[key].expired(now)
}

/// The entries after a look-up of a key: an expired one under it is gone.
pub open spec fn after_lookup(entries: Entries, key: Seq<char>, now: Moment) -> Entries {
    if entries.contains_key(key) && entries[key].expired(now) {
        entries.remove(key)
    } else {
        entries
    }
}

/// The entries that may be served at `now`.
pub open spec fn unexpired(entries: Entries, now: Moment) -> Entries {
    Map::new(
        |k: Seq<char>| entries.contains_key(k) && !entries[k].expired(now),
        |k: Seq<char>| entries[k],
    )
}

/// The entries that were built on none of some files.
pub open spec fn untouched(entries: Entries, paths: Seq<Seq<char>>) -> Entries {
    Map::new(
        |k: Seq<char>| entries.contains_key(k) && !entries[k].touches(paths),
        |k: Seq<char>| entries[k],
    )
}

/// The entries whose keys do not start with `prefix`.
pub open spec fn without_prefix(entries: Entries, prefix: Seq<char>) -> Entries {
    Map::new(
        |k: Seq<char>| entries.contains_key(k) && !prefix.is_prefix_of(k),
        |k: Seq<char>| entries[k],
    )
}

/// The files that at least one entry was built on.
pub open spec fn files_of(entries: Entries) -> Set<Seq<char>> {
    Set::new(
        |f: Seq<char>|
            exists|k: Seq<char>|
                entries.contains_key(k) && (#[trigger] entries[k]).files.contains(f),
    )
}

/// Whether the index links each file to exactly the entries built on it.
pub open spec fn mirrors(links: reverse_index::Links, entries: Entries) -> bool {
    forall|f: Seq<char>, k: Seq<char>|
        #![trigger reverse_index::keys_of(links, f).contains(k)]
        reverse_index::keys_of(links, f).contains(k) <==> entries.contains_key(k)
            && entries[k].files.contains(f)
}

/// Whether a predicate on keys may answer `hit` for `key`.
pub open spec fn may_answer<F: Fn(&str) -> bool>(predicate: F, key: Seq<char>, hit: bool) -> bool {
    exists|k: &str| k@ == key && #[trigger] call_ensures(predicate, (k,), hit)
}

/// The answers, with an index from files to the keys of the answers built on them.
pub struct Cache {
    inner: DashMap<String, CacheEntry>,
    reverse_index: ReverseIndex,
    clock: Clock,
}

impl View for Cache {
    type V = Entries;

    closed spec fn view(&self) -> Entries {
        entries_of(self.inner)
    }
}

impl Default for Cache {
    fn default() -> (r: Self)
        ensures
            r.wf(),
            r@ == Map::<Seq<char>, EntryView>::empty(),
    {
        Cache::new()
    }
}

impl Cache {
    /// The reverse index mirrors the entries: no link is missing, none dangles.
    pub closed spec fn wf(&self) -> bool {
        &&& self@.dom().finite()
        &&& self.reverse_index.wf()
        &&& mirrors(self.reverse_index@, self@)
    }

    /// The clock that the cache reads.
    pub closed spec fn clock(&self) -> Clock {
        self.clock
    }

    /// The links of the reverse index.
    pub closed spec fn links(&self) -> reverse_index::Links {
        self.reverse_index@
    }

    /// The reverse index links each file to exactly the answers built on it, and
    /// holds no file without one: no link is missing, none dangles.
    pub proof fn law_index_mirrors_the_entries(&self)
        requires
            self.wf(),
        ensures
            mirrors(self.links(), self@),
            forall|f: Seq<char>| #[trigger]
                self.links().contains_key(f) ==> self.links()[f] != Set::<Seq<char>>::empty(),
    {
        self.reverse_index.lemma_no_empty_sets();
    }

    /// An empty cache with a clock of its own.
    pub fn new() -> (r: Cache)
        ensures
            r.wf(),
            r@ == Map::<Seq<char>, EntryView>::empty(),
    {
        Cache::with_clock(Clock::new())
    }

    /// An empty cache that reads a given clock.
    pub fn with_clock(clock: Clock) -> (r: Cache)
        ensures
            r.wf(),
            r@ == Map::<Seq<char>, EntryView>::empty(),
            r.clock() == clock,
    {
        Cache { inner: entries_new(), reverse_index: ReverseIndex::new(), clock }
    }

    /// The clock that the cache reads.
    pub fn time_source(&self) -> (r: Clock)
        ensures
            r == self.clock(),
    {
        self.clock
    }

    /// The key of a call: `<server_alias>|<scope>|<tool>|<sha256 of the arguments>`.
    /// The last part has 64 hexadecimal digits: the digest of a text that says what
    /// the whole of the arguments says, the members in the order of their names.
    pub fn key_for(server_alias: &str, scope: &str, tool: &str, args: &Json) -> (r: String)
        ensures
            r@ == cache_key(server_alias@, scope@, tool@, args.tree()),
            args_hash(args.tree()).len() == 64,
            is_lower_hex(args_hash(args.tree())),
            exists|hashed: Seq<char>|
                {
                    &&& r@ == server_alias@ + seq!['|'] + scope@ + seq!['|'] + tool@ + seq!['|']
                        + hex_digits(sha256_digest(#[trigger] vstd::utf8::encode_utf8(hashed)))
                    &&& json::plain(args.tree(), json::nesting_limit()) ==> json::json_parsed(
                        hashed,
                    ) == Some(args.tree().sorted())
                    &&& json::tame(args.tree().sorted()) ==> json::keeps_shape(
                        args.tree().sorted(),
                        hashed,
                    )
                },
            printed_reads_back(args.tree()),
    {
        let normalized = normalize_args(args);
        let digest = sha256(normalized.as_str().as_bytes());
        proof {
            lemma_hex_digits(digest@);
        }
        let tail = hex_text(&digest);
        let mut key: String = Cache::scope_prefix(server_alias, scope);
        proof {
            reveal_strlit("|");
        }
        key.append(tool);
        key.append("|");
        key.append(tail.as_str());
        assert("|"@ =~= seq!['|']);
        assert(key@ =~= cache_key(server_alias@, scope@, tool@, args.tree()));
        assert(key@ =~= server_alias@ + seq!['|'] + scope@ + seq!['|'] + tool@ + seq!['|']
            + hex_digits(sha256_digest(vstd::utf8::encode_utf8(normalized@))));
        key
    }

    /// The head of the keys of a scope: `<server_alias>|<scope>|`.
    pub fn scope_prefix(server_alias: &str, scope: &str) -> (r: String)
        ensures
            r@ == prefix_of(server_alias@, scope@),
    {
        proof {
            reveal_strlit("|");
        }
        let mut prefix: String = server_alias.to_string();
        prefix.append("|");
        prefix.append(scope);
        prefix.append("|");
        assert("|"@ =~= seq!['|']);
        assert(prefix@ =~= prefix_of(server_alias@, scope@));
        prefix
    }

    /// Drop the entry under a key together with its links.
    fn remove_entry(&mut self, key: &str)
        requires
            old(self).wf(),
        ensures
            final(self).wf(),
            final(self).clock() == old(self).clock(),
            final(self)@ == old(self)@.remove(key@),
    {
        match entries_get(&self.inner, key) {
            Some(entry) => {
                entries_remove(&mut self.inner, key);
                self.reverse_index.remove_key_from_files(entry.dependent_files.as_slice(), key);
                proof {
                    let links = old(self).reverse_index@;
                    let files = entry@.files.to_set();
                    assert forall|f: Seq<char>, k: Seq<char>| #[trigger]
                        reverse_index::keys_of(self.reverse_index@, f).contains(k)
                            <==> self@.contains_key(k) && self@[k].files.contains(f) by {
                        assert(reverse_index::keys_of(links, f).contains(k) <==> old(
                            self,
                        )@.contains_key(k) && old(self)@[k].files.contains(f));
                        assert(files.contains(f) == entry@.files.contains(f));
                        if links.contains_key(f) && files.contains(f) {
                            if links[f].contains(k) && k != key@ {
                                assert(links[f].remove(key@).contains(k));
                            }
                        }
                    }
                }
            },
            None => {
                assert(self@ =~= old(self)@.remove(key@));
            },
        }
    }

    /// Put an entry under a key, in place of the one before.
    fn put(&mut self, key: String, entry: CacheEntry)
        requires
            old(self).wf(),
        ensures
            final(self).wf(),
            final(self).clock() == old(self).clock(),
            final(self)@ == old(self)@.insert(key@, entry@),
    {
        self.remove_entry(key.as_str());
        let ghost rest = self@;
        let ghost files = entry@.files;
        let mut i: usize = 0;
        while i < entry.dependent_files.len()
            invariant
                i <= entry.dependent_files@.len(),
                files == text::texts(entry.dependent_files@),
                self.clock() == old(self).clock(),
                self@ == rest,
                rest.dom().finite(),
                !rest.contains_key(key@),
                self.reverse_index.wf(),
                forall|f: Seq<char>, k: Seq<char>|
                    #![trigger reverse_index::keys_of(self.reverse_index@, f).contains(k)]
                    reverse_index::keys_of(self.reverse_index@, f).contains(k) <==> (
                    rest.contains_key(k) && rest[k].files.contains(f)) || (k == key@ && files.take(
                        i as int,
                    ).contains(f)),
            decreases entry.dependent_files@.len() - i,
        {
            let ghost links = self.reverse_index@;
            let ghost path = files[i as int];
            self.reverse_index.associate(entry.dependent_files[i].as_str(), key.as_str());
            proof {
                assert(files.take(i + 1) =~= files.take(i as int).push(path));
                assert forall|f: Seq<char>, k: Seq<char>| #[trigger]
                    reverse_index::keys_of(self.reverse_index@, f).contains(k) <==> (
                    rest.contains_key(k) && rest[k].files.contains(f)) || (k == key@ && files.take(
                        i + 1,
                    ).contains(f)) by {
                    text::lemma_push_contains(files.take(i as int), path, f);
                    assert(reverse_index::keys_of(links, f).contains(k) <==> (rest.contains_key(k)
                        && rest[k].files.contains(f)) || (k == key@ && files.take(
                        i as int,
                    ).contains(f)));
                }
            }
            i = i + 1;
        }
        assert(files.take(files.len() as int) =~= files);
        let ghost name = key@;
        entries_insert(&mut self.inner, key, entry);
        assert(self@ =~= old(self)@.insert(name, entry@));
        assert forall|f: Seq<char>, k: Seq<char>| #[trigger]
            reverse_index::keys_of(self.reverse_index@, f).contains(k) <==> self@.contains_key(k)
                && self@[k].files.contains(f) by {}
    }

    /// The answer under a key, if it may be served. An expired one is dropped.
    pub fn get(&mut self, key: &str) -> (r: Option<Arc<String>>)
        requires
            old(self).wf(),
        ensures
            final(self).wf(),
            final(self).clock() == old(self).clock(),
            exists|now: Moment|
                {
                    &&& now.is_reading()
                    &&& old(self).clock().reports(now)
                    &&& final(self)@ == #[trigger] after_lookup(old(self)@, key@, now)
                    &&& match r {
                        Some(payload) => live(old(self)@, key@, now) && payload@ == old(
                            self,
                        )@[key@].payload,
                        None => !live(old(self)@, key@, now),
                    }
                },
    {
        let now = self.clock.now();
        self.get_at(key, now)
    }

    /// The answer under a key, if it may be served at `now`. An expired one is dropped.
    pub fn get_at(&mut self, key: &str, now: Moment) -> (r: Option<Arc<String>>)
        requires
            old(self).wf(),
        ensures
            final(self).wf(),
            final(self).clock() == old(self).clock(),
            final(self)@ == after_lookup(old(self)@, key@, now),
            match r {
                Some(payload) => live(old(self)@, key@, now) && payload@ == old(
                    self,
                )@[key@].payload,
                None => !live(old(self)@, key@, now),
            },
    {
        match self.get_with_deps_at(key, now) {
            Some((payload, _)) => Some(payload),
            None => None,
        }
    }

    /// Like `get`, with the files that the answer was built on.
    pub fn get_with_deps(&mut self, key: &str) -> (r: Option<(Arc<String>, Vec<String>)>)
        requires
            old(self).wf(),
        ensures
            final(self).wf(),
            final(self).clock() == old(self).clock(),
            exists|now: Moment|
                {
                    &&& now.is_reading()
                    &&& old(self).clock().reports(now)
                    &&& final(self)@ == #[trigger] after_lookup(old(self)@, key@, now)
                    &&& match r {
                        Some((payload, files)) => {
                            &&& live(old(self)@, key@, now)
                            &&& payload@ == old(self)@[key@].payload
                            &&& text::texts(files@) == old(self)@[key@].files
                        },
                        None => !live(old(self)@, key@, now),
                    }
                },
    {
        let now = self.clock.now();
        self.get_with_deps_at(key, now)
    }

    /// Like `get_at`, with the files that the answer was built on.
    pub fn get_with_deps_at(&mut self, key: &str, now: Moment) -> (r: Option<
        (Arc<String>, Vec<String>),
    >)
        requires
            old(self).wf(),
        ensures
            final(self).wf(),
            final(self).clock() == old(self).clock(),
            final(self)@ == after_lookup(old(self)@, key@, now),
            match r {
                Some((payload, files)) => {
                    &&& live(old(self)@, key@, now)
                    &&& payload@ == old(self)@[key@].payload
                    &&& text::texts(files@) == old(self)@[key@].files
                },
                None => !live(old(self)@, key@, now),
            },
    {
        match entries_get(&self.inner, key) {
            Some(entry) => {
                if entry.is_expired(now) {
                    self.remove_entry(key);
                    None
                } else {
                    Some((entry.payload, entry.dependent_files))
                }
            },
            None => None,
        }
    }

    /// Keep an answer that names no files, in place of the one under the key before.
    pub fn insert(&mut self, key: String, payload: Arc<String>, ttl: Span)
        requires
            old(self).wf(),
        ensures
            final(self).wf(),
            final(self).clock() == old(self).clock(),
            exists|now: Moment|
                now.is_reading() && old(self).clock().reports(now) && final(self)@ == old(self)@.insert(
                    key@,
                    #[trigger] fresh_entry(payload@, ttl, Seq::empty(), now),
                ),
    {
        let now = self.clock.now();
        self.insert_at(key, payload, ttl, now);
    }

    /// Keep an answer that comes in at `now` and names no files, in place of the
    /// one under the key before.
    pub fn insert_at(&mut self, key: String, payload: Arc<String>, ttl: Span, now: Moment)
        requires
            old(self).wf(),
        ensures
            final(self).wf(),
            final(self).clock() == old(self).clock(),
            final(self)@ == old(self)@.insert(
                key@,
                fresh_entry(payload@, ttl, Seq::empty(), now),
            ),
    {
        self.put(key, CacheEntry::new(payload, ttl, now));
    }

    /// Keep an answer with the files it was built on, in place of the one under
    /// the key before. Without files this is `insert`.
    pub fn insert_with_deps(
        &mut self,
        key: String,
        payload: Arc<String>,
        ttl: Span,
        dependent_files: Vec<String>,
    )
        requires
            old(self).wf(),
        ensures
            final(self).wf(),
            final(self).clock() == old(self).clock(),
            exists|now: Moment|
                now.is_reading() && old(self).clock().reports(now) && final(self)@ == old(self)@.insert(
                    key@,
                    #[trigger] fresh_entry(payload@, ttl, text::texts(dependent_files@), now),
                ),
    {
        let now = self.clock.now();
        self.insert_with_deps_at(key, payload, ttl, dependent_files, now);
    }

    /// Keep an answer that comes in at `now` with the files it was built on, in
    /// place of the one under the key before.
    pub fn insert_with_deps_at(
        &mut self,
        key: String,
        payload: Arc<String>,
        ttl: Span,
        dependent_files: Vec<String>,
        now: Moment,
    )
        requires
            old(self).wf(),
        ensures
            final(self).wf(),
            final(self).clock() == old(self).clock(),
            final(self)@ == old(self)@.insert(
                key@,
                fresh_entry(payload@, ttl, text::texts(dependent_files@), now),
            ),
    {
        self.put(key, CacheEntry::new_with_deps(payload, ttl, dependent_files, now));
    }

    /// Drop the answers that were built on at least one of the files, and no
    /// others, and say how many they were.
    pub fn invalidate_files(&mut self, file_paths: &[String]) -> (r: usize)
        requires
            old(self).wf(),
        ensures
            final(self).wf(),
            final(self).clock() == old(self).clock(),
            final(self)@ == untouched(old(self)@, text::texts(file_paths@)),
            r + final(self)@.dom().len() == old(self)@.dom().len(),
    {
        let ghost before = self@;
        let ghost paths = text::texts(file_paths@);
        let keys = self.reverse_index.keys_for_files(file_paths);
        let ghost doomed = text::texts(keys@);
        proof {
            assert forall|k: Seq<char>| #[trigger] doomed.contains(k) <==> before.contains_key(k)
                && before[k].touches(paths) by {
                if doomed.contains(k) {
                    let i = choose|i: int|
                        0 <= i < paths.len() && reverse_index::keys_of(
                            self.reverse_index@,
                            #[trigger] paths[i],
                        ).contains(k);
                    assert(before[k].files.contains(paths[i]));
                }
                if before.contains_key(k) && before[k].touches(paths) {
                    let i = choose|i: int|
                        0 <= i < paths.len() && before[k].files.contains(#[trigger] paths[i]);
                    assert(reverse_index::keys_of(self.reverse_index@, paths[i]).contains(k));
                }
            }
            assert(doomed.to_set().subset_of(before.dom()));
        }
        let removed = self.remove_keys(&keys);
        assert(self@ =~= untouched(before, paths));
        removed
    }

    /// Drop the entries under some keys.
    fn remove_keys(&mut self, keys: &Vec<String>) -> (r: usize)
        requires
            old(self).wf(),
            text::texts(keys@).no_duplicates(),
            text::texts(keys@).to_set().subset_of(old(self)@.dom()),
        ensures
            final(self).wf(),
            final(self).clock() == old(self).clock(),
            final(self)@ == old(self)@.remove_keys(text::texts(keys@).to_set()),
            r == keys@.len(),
            r + final(self)@.dom().len() == old(self)@.dom().len(),
    {
        let ghost before = self@;
        let ghost doomed = text::texts(keys@);
        let mut i: usize = 0;
        assert(self@ =~= before.remove_keys(doomed.take(0).to_set()));
        while i < keys.len()
            invariant
                self.wf(),
                self.clock() == old(self).clock(),
                i <= keys@.len(),
                doomed == text::texts(keys@),
                doomed.no_duplicates(),
                doomed.to_set().subset_of(before.dom()),
                self@ == before.remove_keys(doomed.take(i as int).to_set()),
                i + self@.dom().len() == before.dom().len(),
            decreases keys@.len() - i,
        {
            let ghost key = doomed[i as int];
            let ghost prev = self@;
            proof {
                assert(doomed.to_set().contains(key));
                assert(!doomed.take(i as int).contains(key));
                assert(prev.contains_key(key));
                assert(doomed.take(i + 1) =~= doomed.take(i as int).push(key));
                doomed.take(i as int).lemma_push_to_set_commute(key);
            }
            self.remove_entry(keys[i].as_str());
            assert(self@ =~= before.remove_keys(doomed.take(i + 1).to_set()));
            i = i + 1;
        }
        assert(doomed.take(keys@.len() as int) =~= doomed);
        i
    }

    /// Drop the answers whose keys a predicate accepts, and say how many they were.
    pub fn invalidate_where<F: Fn(&str) -> bool>(&mut self, predicate: F) -> (r: usize)
        requires
            old(self).wf(),
            forall|k: &str| call_requires(predicate, (k,)),
        ensures
            final(self).wf(),
            final(self).clock() == old(self).clock(),
            exists|chosen: Set<Seq<char>>|
                {
                    &&& final(self)@ == #[trigger] old(self)@.remove_keys(chosen)
                    &&& forall|key: Seq<char>| #[trigger]
                        old(self)@.contains_key(key) ==> may_answer(
                            predicate,
                            key,
                            chosen.contains(key),
                        )
                },
            r + final(self)@.dom().len() == old(self)@.dom().len(),
    {
        let keys = entries_keys(&self.inner);
        let ghost all = text::texts(keys@);
        let mut doomed: Vec<String> = Vec::new();
        let mut i: usize = 0;
        while i < keys.len()
            invariant
                i <= keys@.len(),
                all == text::texts(keys@),
                all.no_duplicates(),
                forall|k: &str| call_requires(predicate, (k,)),
                text::texts(doomed@).no_duplicates(),
                forall|key: Seq<char>| #[trigger]
                    text::texts(doomed@).contains(key) ==> all.take(i as int).contains(key),
                forall|j: int|
                    #![trigger all[j]]
                    0 <= j < i ==> may_answer(
                        predicate,
                        all[j],
                        text::texts(doomed@).contains(all[j]),
                    ),
            decreases keys@.len() - i,
        {
            let ghost before = text::texts(doomed@);
            let ghost key = all[i as int];
            let name = keys[i].as_str();
            let hit = predicate(name);
            proof {
                assert(all.take(i + 1) =~= all.take(i as int).push(key));
                assert(!all.take(i as int).contains(key));
                assert(!before.contains(key));
            }
            if hit {
                doomed.push(keys[i].clone());
                assert(text::texts(doomed@) =~= before.push(key));
            }
            proof {
                let after = text::texts(doomed@);
                assert forall|x: Seq<char>| #[trigger] after.contains(x) implies all.take(
                    i + 1,
                ).contains(x) by {
                    text::lemma_push_contains(before, key, x);
                    text::lemma_push_contains(all.take(i as int), key, x);
                }
                text::lemma_push_contains(before, key, key);
                assert(after.contains(key) == hit);
                assert(may_answer(predicate, key, after.contains(key)));
                assert forall|j: int| #![trigger all[j]] 0 <= j < i implies may_answer(
                    predicate,
                    all[j],
                    after.contains(all[j]),
                ) by {
                    text::lemma_push_contains(before, key, all[j]);
                }
            }
            i = i + 1;
        }
        assert(all.take(keys@.len() as int) =~= all);
        let ghost chosen = text::texts(doomed@).to_set();
        proof {
            assert forall|key: Seq<char>| #[trigger] self@.contains_key(key) implies may_answer(
                predicate,
                key,
                chosen.contains(key),
            ) by {
                assert(all.to_set().contains(key));
                let j = choose|j: int| 0 <= j < all.len() && all[j] == key;
                assert(chosen.contains(key) == text::texts(doomed@).contains(all[j]));
            }
            assert(chosen.subset_of(self@.dom())) by {
                assert forall|x: Seq<char>| chosen.contains(x) implies self@.dom().contains(x) by {
                    assert(text::texts(doomed@).contains(x));
                    assert(all.to_set().contains(x));
                }
            }
        }
        self.remove_keys(&doomed)
    }

    /// Drop the answers whose keys start with `prefix`, and say how many they were.
    pub fn invalidate_prefix(&mut self, prefix: &str) -> (r: usize)
        requires
            old(self).wf(),
        ensures
            final(self).wf(),
            final(self).clock() == old(self).clock(),
            final(self)@ == without_prefix(old(self)@, prefix@),
            r + final(self)@.dom().len() == old(self)@.dom().len(),
    {
        let starts = |k: &str| -> (b: bool)
            ensures
                b == prefix@.is_prefix_of(k@),
            { text::text_starts_with(k, prefix) };
        let removed = self.invalidate_where(starts);
        proof {
            let before = old(self)@;
            let chosen = choose|chosen: Set<Seq<char>>|
                {
                    &&& self@ == #[trigger] before.remove_keys(chosen)
                    &&& forall|key: Seq<char>| #[trigger]
                        before.contains_key(key) ==> may_answer(starts, key, chosen.contains(key))
                };
            assert forall|key: Seq<char>| #[trigger]
                before.contains_key(key) implies chosen.contains(key) == prefix@.is_prefix_of(
                key,
            ) by {}
            assert(self@ =~= without_prefix(before, prefix@));
        }
        removed
    }

    /// Drop all answers.
    pub fn clear(&mut self)
        requires
            old(self).wf(),
        ensures
            final(self).wf(),
            final(self).clock() == old(self).clock(),
            final(self)@ == Map::<Seq<char>, EntryView>::empty(),
    {
        entries_clear(&mut self.inner);
        self.reverse_index.clear();
    }

    /// Drop the answers that may no longer be served, and say how many they were.
    pub fn evict_expired(&mut self) -> (r: usize)
        requires
            old(self).wf(),
        ensures
            final(self).wf(),
            final(self).clock() == old(self).clock(),
            exists|now: Moment|
                now.is_reading() && old(self).clock().reports(now) && final(self)@
                    == #[trigger] unexpired(old(self)@, now),
            r + final(self)@.dom().len() == old(self)@.dom().len(),
    {
        let now = self.clock.now();
        self.evict_expired_at(now)
    }

    /// Drop the answers that may no longer be served at `now`, and say how many
    /// they were.
    pub fn evict_expired_at(&mut self, now: Moment) -> (r: usize)
        requires
            old(self).wf(),
        ensures
            final(self).wf(),
            final(self).clock() == old(self).clock(),
            final(self)@ == unexpired(old(self)@, now),
            r + final(self)@.dom().len() == old(self)@.dom().len(),
    {
        let ghost before = self@;
        let keys = entries_keys(&self.inner);
        let ghost all = text::texts(keys@);
        let mut doomed: Vec<String> = Vec::new();
        let mut i: usize = 0;
        while i < keys.len()
            invariant
                i <= keys@.len(),
                all == text::texts(keys@),
                all.no_duplicates(),
                all.to_set() == before.dom(),
                self@ == before,
                text::texts(doomed@).no_duplicates(),
                forall|key: Seq<char>| #[trigger]
                    text::texts(doomed@).contains(key) <==> all.take(i as int).contains(key)
                        && before[key].expired(now),
            decreases keys@.len() - i,
        {
            let ghost doomed_before = text::texts(doomed@);
            let ghost key = all[i as int];
            proof {
                assert(all.to_set().contains(key));
                assert(all.take(i + 1) =~= all.take(i as int).push(key));
                assert(!all.take(i as int).contains(key));
                assert(!doomed_before.contains(key));
            }
            let expired: bool = match entries_get(&self.inner, keys[i].as_str()) {
                Some(entry) => entry.is_expired(now),
                None => false,
            };
            if expired {
                doomed.push(keys[i].clone());
                assert(text::texts(doomed@) =~= doomed_before.push(key));
            }
            proof {
                assert forall|x: Seq<char>| #[trigger]
                    text::texts(doomed@).contains(x) <==> all.take(i + 1).contains(x)
                        && before[x].expired(now) by {
                    text::lemma_push_contains(doomed_before, key, x);
                    text::lemma_push_contains(all.take(i as int), key, x);
                    assert(doomed_before.contains(x) <==> all.take(i as int).contains(x)
                        && before[x].expired(now));
                }
            }
            i = i + 1;
        }
        proof {
            assert(all.take(keys@.len() as int) =~= all);
            assert forall|x: Seq<char>| text::texts(doomed@).contains(x) <==> before.contains_key(x)
                && before[x].expired(now) by {
                assert(all.contains(x) <==> all.to_set().contains(x));
            }
        }
        let removed = self.remove_keys(&doomed);
        assert(self@ =~= unexpired(before, now));
        removed
    }

    /// The number of answers.
    pub fn len(&self) -> (r: usize)
        ensures
            r == self@.dom().len(),
    {
        entries_len(&self.inner)
    }

    /// Whether there is no answer.
    pub fn is_empty(&self) -> (r: bool)
        requires
            self.wf(),
        ensures
            r == (self@ == Map::<Seq<char>, EntryView>::empty()),
    {
        proof {
            if self@.dom().len() == 0 {
                assert(self@.dom() =~= Set::empty());
                assert(self@ =~= Map::empty());
            } else {
                assert(Map::<Seq<char>, EntryView>::empty().dom() =~= Set::empty());
            }
        }
        self.len() == 0
    }

    /// The number of files that at least one answer was built on.
    pub fn reverse_index_size(&self) -> (r: usize)
        requires
            self.wf(),
        ensures
            r == files_of(self@).len(),
    {
        proof {
            self.reverse_index.lemma_no_empty_sets();
            let links = self.reverse_index@;
            assert forall|f: Seq<char>| links.dom().contains(f) == files_of(self@).contains(f) by {
                if links.contains_key(f) {
                    let keys = links[f];
                    assert(exists|k: Seq<char>| keys.contains(k)) by {
                        if forall|k: Seq<char>| !keys.contains(k) {
                            assert(keys =~= Set::empty());
                        }
                    }
                    let k = choose|k: Seq<char>| keys.contains(k);
                    assert(reverse_index::keys_of(links, f).contains(k));
                }
                if files_of(self@).contains(f) {
                    let k = choose|k: Seq<char>|
                        self@.contains_key(k) && (#[trigger] self@[k]).files.contains(f);
                    assert(reverse_index::keys_of(links, f).contains(k));
                }
            }
            assert(links.dom() =~= files_of(self@));
        }
        self.reverse_index.len()
    }
}

/// Whether the compact text of a value, once its members are in order, parses to
/// that value, as it does for a plain one.
pub open spec fn printed_reads_back(args: JsonTree) -> bool {
    json::plain(args, json::nesting_limit()) ==> json::json_parsed(
        json::json_printed(args.sorted()),
    ) == Some(args.sorted())
}

/// The arguments of a call as text: members sorted by name at any depth.
pub fn normalize_args(value: &Json) -> (r: String)
    ensures
        r@ == normal_text(value.tree()),
        json::plain(value.tree(), json::nesting_limit()) ==> json::json_parsed(r@) == Some(
            value.tree().sorted(),
        ),
        json::tame(value.tree().sorted()) ==> json::keeps_shape(value.tree().sorted(), r@),
        printed_reads_back(value.tree()),
{
    json::print_json(value)
}

/// The key of a call starts with the prefix of its scope.
pub proof fn law_key_starts_with_scope_prefix(
    server_alias: Seq<char>,
    scope: Seq<char>,
    tool: Seq<char>,
    args: JsonTree,
)
    ensures
        prefix_of(server_alias, scope).is_prefix_of(cache_key(server_alias, scope, tool, args)),
{
    let key = cache_key(server_alias, scope, tool, args);
    let prefix = prefix_of(server_alias, scope);
    assert(key.subrange(0, prefix.len() as int) =~= prefix);
}

/// The key of a call does not depend on the order in which members stand in its
/// arguments.
pub proof fn law_key_ignores_member_order(
    server_alias: Seq<char>,
    scope: Seq<char>,
    tool: Seq<char>,
    args: JsonTree,
    reordered: JsonTree,
)
    requires
        json::same_up_to_order(args, reordered),
    ensures
        cache_key(server_alias, scope, tool, args) == cache_key(
            server_alias,
            scope,
            tool,
            reordered,
        ),
{
    json::lemma_order_is_irrelevant(args, reordered);
}

/// The prefix of one scope covers no key of another, as long as neither scope
/// contains `|`.
pub proof fn law_scope_prefixes_are_apart(
    server_alias: Seq<char>,
    scope: Seq<char>,
    other: Seq<char>,
    tool: Seq<char>,
    args: JsonTree,
)
    requires
        !scope.contains('|'),
        !other.contains('|'),
        scope != other,
    ensures
        !prefix_of(server_alias, scope).is_prefix_of(cache_key(server_alias, other, tool, args)),
        cache_key(server_alias, scope, tool, args) != cache_key(server_alias, other, tool, args),
{
    let prefix = prefix_of(server_alias, scope);
    let key = cache_key(server_alias, other, tool, args);
    let start = server_alias.len() as int + 1;
    law_key_starts_with_scope_prefix(server_alias, scope, tool, args);
    if prefix.is_prefix_of(key) {
        assert forall|i: int| 0 <= i < prefix.len() implies prefix[i] == key[i] by {
            assert(key.subrange(0, prefix.len() as int)[i] == key[i]);
        }
        assert forall|i: int| 0 <= i < scope.len() implies scope[i] == prefix[start + i] by {}
        assert forall|i: int| 0 <= i < other.len() implies other[i] == key[start + i] by {}
        if scope.len() < other.len() {
            assert(prefix[start + scope.len()] == '|');
            assert(other[scope.len() as int] == '|');
        } else if other.len() < scope.len() {
            assert(key[start + other.len()] == '|');
            assert(scope[other.len() as int] == '|');
        } else {
            assert(scope =~= other);
        }
    }
}

/// Dropping the keys under the prefix of a scope drops the answers of that
/// scope and keeps those of every other, as long as no scope contains `|`.
pub proof fn law_scope_invalidation_is_exact(
    entries: Entries,
    server_alias: Seq<char>,
    scope: Seq<char>,
    other: Seq<char>,
    tool: Seq<char>,
    args: JsonTree,
)
    requires
        !scope.contains('|'),
        !other.contains('|'),
    ensures
        ({
            let key = cache_key(server_alias, other, tool, args);
            let kept = without_prefix(entries, prefix_of(server_alias, scope));
            &&& kept.contains_key(key) <==> entries.contains_key(key) && other != scope
            &&& kept.contains_key(key) ==> kept[key] == entries[key]
        }),
{
    if scope == other {
        law_key_starts_with_scope_prefix(server_alias, scope, tool, args);
    } else {
        law_scope_prefixes_are_apart(server_alias, scope, other, tool, args);
    }
}

/// A look-up gives back the answer that was last kept under the key until its
/// time to live is over, and nothing from then on.
pub proof fn law_lookup_gives_what_was_kept(
    entries: Entries,
    key: Seq<char>,
    payload: Seq<char>,
    ttl: Span,
    files: Seq<Seq<char>>,
    then: Moment,
    now: Moment,
)
    ensures
        ({
            let kept = entries.insert(key, fresh_entry(payload, ttl, files, then));
            &&& live(kept, key, now) <==> now.nanos < then.after(ttl).nanos
            &&& then.nanos + ttl.nanos <= u128::MAX ==> (live(kept, key, now) <==> now.nanos
                < then.nanos + ttl.nanos)
            &&& kept[key].recorded_at == then
            &&& kept[key].payload == payload
            &&& kept[key].files == files
        }),
{
}

/// A change of some files drops exactly the answers built on them: what is left
/// was built on none of them, and the same change a second time drops nothing.
pub proof fn law_file_invalidation_is_exact(
    entries: Entries,
    paths: Seq<Seq<char>>,
    key: Seq<char>,
)
    ensures
        untouched(entries, paths).contains_key(key) <==> entries.contains_key(key)
            && !entries[key].touches(paths),
        untouched(entries, paths).contains_key(key) ==> untouched(entries, paths)[key]
            == entries[key],
        untouched(untouched(entries, paths), paths) == untouched(entries, paths),
{
    assert(untouched(untouched(entries, paths), paths) =~= untouched(entries, paths));
}

/// Answers of different tools have different keys.
pub proof fn law_keys_tell_tools_apart(
    server_alias: Seq<char>,
    scope: Seq<char>,
    tool: Seq<char>,
    other: Seq<char>,
    args: JsonTree,
)
    requires
        tool != other,
    ensures
        cache_key(server_alias, scope, tool, args) != cache_key(server_alias, scope, other, args),
{
    let key = cache_key(server_alias, scope, tool, args);
    let other_key = cache_key(server_alias, scope, other, args);
    let start = prefix_of(server_alias, scope).len() as int;
    assert(key.len() == start + tool.len() + 1 + args_hash(args).len());
    assert(other_key.len() == start + other.len() + 1 + args_hash(args).len());
    if key == other_key {
        assert forall|i: int| 0 <= i < tool.len() implies tool[i] == other[i] by {
            assert(key[start + i] == tool[i]);
            assert(other_key[start + i] == other[i]);
        }
        assert(tool =~= other);
    }
}

/// Dropping what has expired changes nothing that a later look-up gives.
pub proof fn law_eviction_is_not_noticed(
    entries: Entries,
    key: Seq<char>,
    now: Moment,
    later: Moment,
)
    requires
        now.nanos <= later.nanos,
    ensures
        live(unexpired(entries, now), key, later) == live(entries, key, later),
        live(entries, key, later) ==> unexpired(entries, now)[key] == entries[key],
{
}

/// A digit tells what it writes.
proof fn lemma_hex_digit_injective(a: u8, b: u8)
    requires
        a < 16,
        b < 16,
        hex_digit(a) == hex_digit(b),
    ensures
        a == b,
{
    assert(hex_digit(a) as u32 == if a < 10 {
        48 + a
    } else {
        87 + a
    });
    assert(hex_digit(b) as u32 == if b < 10 {
        48 + b
    } else {
        87 + b
    });
}

/// Hexadecimal digits tell the bytes that they write.
pub proof fn law_hex_digits_tell_the_bytes(a: Seq<u8>, b: Seq<u8>)
    requires
        hex_digits(a) == hex_digits(b),
    ensures
        a == b,
{
    assert(hex_digits(a).len() == 2 * a.len());
    assert(hex_digits(b).len() == 2 * b.len());
    assert forall|i: int| 0 <= i < a.len() implies a[i] == b[i] by {
        assert((2 * i) % 2 == 0 && (2 * i) / 2 == i);
        assert((2 * i + 1) % 2 == 1 && (2 * i + 1) / 2 == i);
        assert(hex_digits(a)[2 * i] == hex_digit(a[i] / 16));
        assert(hex_digits(b)[2 * i] == hex_digit(b[i] / 16));
        assert(hex_digits(a)[2 * i + 1] == hex_digit(a[i] % 16));
        assert(hex_digits(b)[2 * i + 1] == hex_digit(b[i] % 16));
        lemma_hex_digit_injective(a[i] / 16, b[i] / 16);
        lemma_hex_digit_injective(a[i] % 16, b[i] % 16);
        assert(a[i] == (a[i] / 16) * 16 + a[i] % 16);
        assert(b[i] == (b[i] / 16) * 16 + b[i] % 16);
    }
    assert(a =~= b);
}

/// Texts that stand on both sides of the last `|` are told by what they make together.
proof fn lemma_last_bar(a: Seq<char>, x: Seq<char>, b: Seq<char>, y: Seq<char>)
    requires
        a + seq!['|'] + x == b + seq!['|'] + y,
        !x.contains('|'),
        !y.contains('|'),
    ensures
        a == b,
        x == y,
{
    let s = a + seq!['|'] + x;
    let t = b + seq!['|'] + y;
    assert(s == t);
    assert(s.len() == a.len() + 1 + x.len() && t.len() == b.len() + 1 + y.len());
    assert(s[a.len() as int] == '|');
    assert(t[b.len() as int] == '|');
    if a.len() < b.len() {
        assert(s[b.len() as int] == x[b.len() - a.len() - 1]);
    } else if b.len() < a.len() {
        assert(t[a.len() as int] == y[a.len() - b.len() - 1]);
    }
    assert(a =~= s.take(a.len() as int));
    assert(b =~= t.take(b.len() as int));
    assert(x =~= s.skip(a.len() as int + 1));
    assert(y =~= t.skip(b.len() as int + 1));
}

/// Texts that stand on both sides of the first `|` are told by what they make together.
proof fn lemma_first_bar(a: Seq<char>, x: Seq<char>, b: Seq<char>, y: Seq<char>)
    requires
        a + seq!['|'] + x == b + seq!['|'] + y,
        !a.contains('|'),
        !b.contains('|'),
    ensures
        a == b,
        x == y,
{
    let s = a + seq!['|'] + x;
    let t = b + seq!['|'] + y;
    assert(s == t);
    assert(s.len() == a.len() + 1 + x.len() && t.len() == b.len() + 1 + y.len());
    assert(s[a.len() as int] == '|');
    assert(t[b.len() as int] == '|');
    if a.len() < b.len() {
        assert(t[a.len() as int] == b[a.len() as int]);
    } else if b.len() < a.len() {
        assert(s[b.len() as int] == a[b.len() as int]);
    }
    assert(a =~= s.take(a.len() as int));
    assert(b =~= t.take(b.len() as int));
    assert(x =~= s.skip(a.len() as int + 1));
    assert(y =~= t.skip(b.len() as int + 1));
}

/// Hexadecimal digits hold no `|`.
proof fn lemma_no_bar_in_hash(args: JsonTree)
    ensures
        !args_hash(args).contains('|'),
{
    let bytes = sha256_digest(vstd::utf8::encode_utf8(normal_text(args)));
    lemma_hex_digits(bytes);
    if args_hash(args).contains('|') {
        let i = choose|i: int| 0 <= i < args_hash(args).len() && args_hash(args)[i] == '|';
        assert('0' <= args_hash(args)[i] <= '9' || 'a' <= args_hash(args)[i] <= 'f');
    }
}

/// Calls with one key are one call: in one scope, of one tool, with arguments that
/// are written alike once their members are in order, unless the digests of two
/// different texts are the same. Arguments that are written alike and whose texts
/// read back, which `key_for` gives of plain ones, are the same up to the order of
/// members.
pub proof fn law_equal_keys_mean_equal_calls(
    server_alias: Seq<char>,
    scope: Seq<char>,
    tool: Seq<char>,
    args: JsonTree,
    other_scope: Seq<char>,
    other_tool: Seq<char>,
    other_args: JsonTree,
)
    requires
        !scope.contains('|'),
        !other_scope.contains('|'),
        cache_key(server_alias, scope, tool, args) == cache_key(
            server_alias,
            other_scope,
            other_tool,
            other_args,
        ),
    ensures
        scope == other_scope,
        tool == other_tool,
        ({
            let written = json::json_printed(args.sorted());
            let other_written = json::json_printed(other_args.sorted());
            &&& written == other_written || (vstd::utf8::encode_utf8(written)
                != vstd::utf8::encode_utf8(other_written) && sha256_digest(
                vstd::utf8::encode_utf8(written),
            ) == sha256_digest(vstd::utf8::encode_utf8(other_written)))
            &&& written == other_written && json::json_parsed(written) == Some(args.sorted())
                && json::json_parsed(other_written) == Some(other_args.sorted())
                ==> args.sorted() == other_args.sorted()
        }),
{
    broadcast use vstd::utf8::encode_utf8_decode_utf8;

    let alias = server_alias;
    let key = cache_key(alias, scope, tool, args);
    let other_key = cache_key(alias, other_scope, other_tool, other_args);
    let tail = tool + seq!['|'] + args_hash(args);
    let other_tail = other_tool + seq!['|'] + args_hash(other_args);
    let cut = alias.len() as int + 1;
    assert(key.skip(cut) =~= scope + seq!['|'] + tail);
    assert(other_key.skip(cut) =~= other_scope + seq!['|'] + other_tail);
    lemma_first_bar(scope, tail, other_scope, other_tail);
    lemma_no_bar_in_hash(args);
    lemma_no_bar_in_hash(other_args);
    lemma_last_bar(tool, args_hash(args), other_tool, args_hash(other_args));
    let text = json::json_printed(args.sorted());
    let other_text = json::json_printed(other_args.sorted());
    law_hex_digits_tell_the_bytes(
        sha256_digest(vstd::utf8::encode_utf8(text)),
        sha256_digest(vstd::utf8::encode_utf8(other_text)),
    );
    if vstd::utf8::encode_utf8(text) == vstd::utf8::encode_utf8(other_text) {
        assert(vstd::utf8::decode_utf8(vstd::utf8::encode_utf8(text)) == text);
        assert(vstd::utf8::decode_utf8(vstd::utf8::encode_utf8(other_text)) == other_text);
    }
}

/// A key starts with the alias of the server and the scope, each followed by `|`,
/// so that the keys of a scope are found by that prefix.
pub proof fn law_key_reads_alias_scope_tool(
    server_alias: Seq<char>,
    scope: Seq<char>,
    tool: Seq<char>,
    args: JsonTree,
)
    ensures
        (server_alias + seq!['|'] + scope + seq!['|'] + tool + seq!['|']).is_prefix_of(
            cache_key(server_alias, scope, tool, args),
        ),
        prefix_of(server_alias, scope) == server_alias + seq!['|'] + scope + seq!['|'],
{
    let head = server_alias + seq!['|'] + scope + seq!['|'] + tool + seq!['|'];
    let key = cache_key(server_alias, scope, tool, args);
    assert(key.subrange(0, head.len() as int) =~= head);
}

/// A look-up drops at most the entry under its own key, and only once that has
/// expired.
pub proof fn law_lookup_drops_only_the_expired(
    entries: Entries,
    key: Seq<char>,
    other: Seq<char>,
    now: Moment,
)
    ensures
        ({
            let after = after_lookup(entries, key, now);
            &&& after.contains_key(other) <==> entries.contains_key(other) && (other != key
                || now.nanos < entries[key].expires_at.nanos)
            &&& after.contains_key(other) ==> after[other] == entries[other]
        }),
{
}

/// Eviction drops exactly the entries that have expired and leaves the others as
/// they were.
pub proof fn law_eviction_drops_exactly_the_expired(entries: Entries, key: Seq<char>, now: Moment)
    ensures
        unexpired(entries, now).contains_key(key) <==> entries.contains_key(key) && now.nanos
            < entries[key].expires_at.nanos,
        unexpired(entries, now).contains_key(key) ==> unexpired(entries, now)[key] == entries[key],
{
}

/// A change of a file drops every answer built on it, wherever the file stands in
/// either list, and no answer built on none of the changed files.
pub proof fn law_changed_file_drops_its_answers(
    entries: Entries,
    paths: Seq<Seq<char>>,
    path: Seq<char>,
    key: Seq<char>,
)
    requires
        entries.contains_key(key),
    ensures
        paths.contains(path) && entries[key].files.contains(path) ==> !untouched(
            entries,
            paths,
        ).contains_key(key),
        (forall|p: Seq<char>| #[trigger]
            paths.contains(p) ==> !entries[key].files.contains(p)) ==> untouched(
            entries,
            paths,
        ).contains_key(key) && untouched(entries, paths)[key] == entries[key],
        untouched(entries, paths).dom().subset_of(entries.dom()),
{
    if paths.contains(path) && entries[key].files.contains(path) {
        let i = choose|i: int| 0 <= i < paths.len() && paths[i] == path;
        assert(entries[key].files.contains(paths[i]));
    }
    if entries[key].touches(paths) {
        let i = choose|i: int| 0 <= i < paths.len() && entries[key].files.contains(
            #[trigger] paths[i],
        );
        assert(paths.contains(paths[i]));
    }
}

/// Dropping by a prefix drops the keys that read the prefix and then anything, and
/// no others.
pub proof fn law_prefix_drops_what_starts_with_it(
    entries: Entries,
    prefix: Seq<char>,
    rest: Seq<char>,
    key: Seq<char>,
)
    ensures
        !without_prefix(entries, prefix).contains_key(prefix + rest),
        entries.contains_key(key) && key.take(prefix.len() as int) != prefix
            ==> without_prefix(entries, prefix).contains_key(key) && without_prefix(
            entries,
            prefix,
        )[key] == entries[key],
        without_prefix(entries, prefix).dom().subset_of(entries.dom()),
{
    assert((prefix + rest).subrange(0, prefix.len() as int) =~= prefix);
    if prefix.is_prefix_of(key) {
        assert(key.take(prefix.len() as int) =~= prefix);
    }
}

/// A file counts towards the index as long as one answer built on it is kept, and
/// no longer.
pub proof fn law_index_counts_files_in_use(
    entries: Entries,
    key: Seq<char>,
    entry: EntryView,
    path: Seq<char>,
)
    ensures
        files_of(entries.insert(key, entry)).contains(path) <==> entry.files.contains(path)
            || files_of(entries.remove(key)).contains(path),
        !files_of(Map::<Seq<char>, EntryView>::empty()).contains(path),
{
    let more = entries.insert(key, entry);
    let less = entries.remove(key);
    if files_of(more).contains(path) && !entry.files.contains(path) {
        let k = choose|k: Seq<char>| more.contains_key(k) && (
        #[trigger] more[k]).files.contains(path);
        assert(less.contains_key(k) && less[k].files.contains(path));
    }
    if entry.files.contains(path) {
        assert(more.contains_key(key) && more[key].files.contains(path));
    }
    if files_of(less).contains(path) {
        let k = choose|k: Seq<char>| less.contains_key(k) && (
        #[trigger] less[k]).files.contains(path);
        assert(more.contains_key(k) && more[k].files.contains(path));
    }
}

} // verus!
