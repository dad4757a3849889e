//! The index from a file to the cache keys of the answers built on it.
//!
//! A backend names the files that an answer was built on. When one of them
//! changes, the index gives the keys of exactly the answers to drop.

use crate::text;
use dashmap::DashMap;
use vstd::prelude::*;

verus! {

/// What the table of an index holds: for each file the keys that depend on it,
/// in the order in which they stand in the table's value.
pub uninterp spec fn links_of(m: DashMap<String, Vec<String>>) -> Map<Seq<char>, Seq<Seq<char>>>;

/// `DashMap::new`: an empty table.
#[verifier::external_body]
fn links_new() -> (m: DashMap<String, Vec<String>>)
    ensures
        (links_of(m) == Map::<Seq<char>, Seq<Seq<char>>>::empty()),
{
    DashMap::new()
}

/// `DashMap::get`: a clone of the value under a key, if there is one.
#[verifier::external_body]
fn links_get(m: &DashMap<String, Vec<String>>, path: &str) -> (r: Option<Vec<String>>)
    ensures
        (match r {
            Some(keys) => links_of(*m).contains_key(path@) && links_of(*m)[path@] == text::texts(
                keys@,
            ),
            None => !links_of(*m).contains_key(path@),
        }),
{
    m.get(path).map(|entry| entry.value().clone())
}

/// `DashMap::insert`: a value under a key, in place of the one before.
#[verifier::external_body]
fn links_insert(m: &mut DashMap<String, Vec<String>>, path: String, keys: Vec<String>)
    ensures
        links_of(*final(m)) == links_of(*old(m)).insert(path@, text::texts(keys@)),
{
    m.insert(path, keys);
}

/// `DashMap::remove`: no value under a key any more.
#[verifier::external_body]
fn links_remove(m: &mut DashMap<String, Vec<String>>, path: &str)
    ensures
        links_of(*final(m)) == links_of(*old(m)).remove(path@),
{
    m.remove(path);
}

/// `DashMap::len`: the number of keys.
#[verifier::external_body]
fn links_len(m: &DashMap<String, Vec<String>>) -> (r: usize)
    ensures
        r == links_of(*m).dom().len(),
{
    m.len()
}

/// `DashMap::clear`: an empty table.
#[verifier::external_body]
fn links_clear(m: &mut DashMap<String, Vec<String>>)
    ensures
        (links_of(*final(m)) == Map::<Seq<char>, Seq<Seq<char>>>::empty()),
{
    m.clear();
}

/// For each file the keys that depend on it.
pub type Links = Map<Seq<char>, Set<Seq<char>>>;

/// The keys that depend on a file.
pub open spec fn keys_of(links: Links, path: Seq<char>) -> Set<Seq<char>> {
    if links.contains_key(path) {
        links[path]
    } else {
        Set::empty()
    }
}

/// Whether a key depends on at least one of some files.
pub open spec fn depends_on_any(links: Links, paths: Seq<Seq<char>>, key: Seq<char>) -> bool {
    exists|i: int| 0 <= i < paths.len() && keys_of(links, #[trigger] paths[i]).contains(key)
}

/// The links without those from `paths` to `key`; a file without keys is dropped.
pub open spec fn without_key(links: Links, paths: Set<Seq<char>>, key: Seq<char>) -> Links {
    Map::new(
        |f: Seq<char>|
            links.contains_key(f) && (paths.contains(f) ==> links[f].remove(key)
                != Set::<Seq<char>>::empty()),
        |f: Seq<char>|
            if paths.contains(f) {
                links[f].remove(key)
            } else {
                links[f]
            },
    )
}

/// The index from a file to the cache keys that depend on it.
pub struct ReverseIndex {
    inner: DashMap<String, Vec<String>>,
}

impl View for ReverseIndex {
    type V = Links;

    closed spec fn view(&self) -> Links {
        links_of(self.inner).map_values(|keys: Seq<Seq<char>>| keys.to_set())
    }
}

impl Default for ReverseIndex {
    fn default() -> (r: Self)
        ensures
            r.wf(),
            r@ == Map::<Seq<char>, Set<Seq<char>>>::empty(),
    {
        ReverseIndex::new()
    }
}

impl ReverseIndex {
    /// Every file in the index has a key, and no key twice.
    pub closed spec fn wf(&self) -> bool {
        &&& links_of(self.inner).dom().finite()
        &&& forall|f: Seq<char>| #[trigger]
            links_of(self.inner).contains_key(f) ==> {
                &&& links_of(self.inner)[f].no_duplicates()
                &&& links_of(self.inner)[f].len() > 0
            }
    }

    /// No file in the index is without a key.
    pub proof fn lemma_no_empty_sets(&self)
        requires
            self.wf(),
        ensures
            self@.dom().finite(),
            forall|f: Seq<char>| #[trigger]
                self@.contains_key(f) ==> self@[f] != Set::<Seq<char>>::empty(),
    {
        assert(self@.dom() =~= links_of(self.inner).dom());
        assert forall|f: Seq<char>| #[trigger] self@.contains_key(f) implies self@[f] != Set::<
            Seq<char>,
        >::empty() by {
            let keys = links_of(self.inner)[f];
            assert(links_of(self.inner).contains_key(f));
            assert(keys.to_set().contains(keys[0]));
        }
    }

    /// An index without links.
    pub fn new() -> (r: ReverseIndex)
        ensures
            r.wf(),
            r@ == Map::<Seq<char>, Set<Seq<char>>>::empty(),
    {
        let r = ReverseIndex { inner: links_new() };
        assert(r@ =~= Map::empty());
        r
    }

    /// Note that `cache_key` depends on `file_path`.
    pub fn associate(&mut self, file_path: &str, cache_key: &str)
        requires
            old(self).wf(),
        ensures
            final(self).wf(),
            final(self)@ == old(self)@.insert(
                file_path@,
                keys_of(old(self)@, file_path@).insert(cache_key@),
            ),
    {
        let mut keys: Vec<String> = match links_get(&self.inner, file_path) {
            Some(keys) => keys,
            None => Vec::new(),
        };
        let ghost before = text::texts(keys@);
        assert(before.to_set() =~= keys_of(self@, file_path@));
        if !text::list_contains(&keys, cache_key) {
            keys.push(cache_key.to_string());
            assert(text::texts(keys@) =~= before.push(cache_key@));
            proof {
                before.lemma_push_to_set_commute(cache_key@);
            }
        } else {
            assert(before.to_set().insert(cache_key@) =~= before.to_set());
        }
        links_insert(&mut self.inner, file_path.to_string(), keys);
        assert(self@ =~= old(self)@.insert(
            file_path@,
            keys_of(old(self)@, file_path@).insert(cache_key@),
        ));
    }

    /// The keys that depend on at least one of the files, each of them once.
    pub fn keys_for_files(&self, file_paths: &[String]) -> (r: Vec<String>)
        requires
            self.wf(),
        ensures
            text::texts(r@).no_duplicates(),
            forall|key: Seq<char>| #[trigger]
                text::texts(r@).contains(key) <==> depends_on_any(
                    self@,
                    text::texts(file_paths@),
                    key,
                ),
    {
        let ghost paths = text::texts(file_paths@);
        let mut out: Vec<String> = Vec::new();
        let mut i: usize = 0;
        while i < file_paths.len()
            invariant
                i <= file_paths@.len(),
                paths == text::texts(file_paths@),
                text::texts(out@).no_duplicates(),
                forall|key: Seq<char>| #[trigger]
                    text::texts(out@).contains(key) <==> depends_on_any(
                        self@,
                        paths.take(i as int),
                        key,
                    ),
            decreases file_paths@.len() - i,
        {
            let ghost before = text::texts(out@);
            let ghost found = keys_of(self@, paths[i as int]);
            match links_get(&self.inner, file_paths[i].as_str()) {
                Some(keys) => {
                    assert(text::texts(keys@).to_set() =~= found);
                    let mut k: usize = 0;
                    while k < keys.len()
                        invariant
                            k <= keys@.len(),
                            text::texts(out@).no_duplicates(),
                            forall|key: Seq<char>| #[trigger]
                                text::texts(out@).contains(key) <==> before.contains(key)
                                    || text::texts(keys@).take(k as int).contains(key),
                        decreases keys@.len() - k,
                    {
                        let ghost so_far = text::texts(out@);
                        let ghost part = text::texts(keys@).take(k as int);
                        let ghost item = keys@[k as int]@;
                        assert(text::texts(keys@).take(k + 1) =~= part.push(item));
                        if !text::list_contains(&out, keys[k].as_str()) {
                            out.push(keys[k].clone());
                            assert(text::texts(out@) =~= so_far.push(item));
                        }
                        proof {
                            assert forall|key: Seq<char>| #[trigger]
                                text::texts(out@).contains(key) <==> before.contains(key)
                                    || part.push(item).contains(key) by {
                                text::lemma_push_contains(part, item, key);
                                text::lemma_push_contains(so_far, item, key);
                            }
                        }
                        k = k + 1;
                    }
                    assert(text::texts(keys@).take(keys@.len() as int) =~= text::texts(keys@));
                    assert forall|key: Seq<char>| found.contains(key) == text::texts(
                        keys@,
                    ).contains(key) by {}
                },
                None => {},
            }
            proof {
                assert forall|key: Seq<char>| #[trigger]
                    text::texts(out@).contains(key) <==> depends_on_any(
                        self@,
                        paths.take(i + 1),
                        key,
                    ) by {
                    lemma_depends_step(self@, paths, i as int, key);
                    assert(before.contains(key) <==> depends_on_any(
                        self@,
                        paths.take(i as int),
                        key,
                    ));
                }
            }
            i = i + 1;
        }
        assert(paths.take(file_paths@.len() as int) =~= paths);
        out
    }

    /// Drop all links from the files.
    pub fn remove_files(&mut self, file_paths: &[String])
        requires
            old(self).wf(),
        ensures
            final(self).wf(),
            final(self)@ == old(self)@.remove_keys(text::texts(file_paths@).to_set()),
    {
        let ghost paths = text::texts(file_paths@);
        let ghost before = self@;
        let mut i: usize = 0;
        assert(self@ =~= before.remove_keys(paths.take(0).to_set()));
        while i < file_paths.len()
            invariant
                self.wf(),
                i <= file_paths@.len(),
                paths == text::texts(file_paths@),
                self@ == before.remove_keys(paths.take(i as int).to_set()),
            decreases file_paths@.len() - i,
        {
            let ghost links = links_of(self.inner);
            let ghost prev = self@;
            links_remove(&mut self.inner, file_paths[i].as_str());
            proof {
                assert(self@ =~= prev.remove(paths[i as int]));
                assert(paths.take(i + 1) =~= paths.take(i as int).push(paths[i as int]));
                paths.take(i as int).lemma_push_to_set_commute(paths[i as int]);
                assert(self@ =~= before.remove_keys(paths.take(i + 1).to_set()));
            }
            i = i + 1;
        }
        assert(paths.take(file_paths@.len() as int) =~= paths);
    }

    /// Drop the links from the files to `cache_key`. A file that no key depends
    /// on any more leaves the index.
    pub fn remove_key_from_files(&mut self, file_paths: &[String], cache_key: &str)
        requires
            old(self).wf(),
        ensures
            final(self).wf(),
            final(self)@ == without_key(
                old(self)@,
                text::texts(file_paths@).to_set(),
                cache_key@,
            ),
    {
        let ghost paths = text::texts(file_paths@);
        let ghost before = self@;
        let mut i: usize = 0;
        assert(self@ =~= without_key(before, paths.take(0).to_set(), cache_key@));
        while i < file_paths.len()
            invariant
                self.wf(),
                i <= file_paths@.len(),
                paths == text::texts(file_paths@),
                self@ == without_key(before, paths.take(i as int).to_set(), cache_key@),
            decreases file_paths@.len() - i,
        {
            let ghost path = paths[i as int];
            let ghost prev = self@;
            match links_get(&self.inner, file_paths[i].as_str()) {
                Some(keys) => {
                    let ghost had = text::texts(keys@);
                    let rest = text::drop_text(keys, cache_key);
                    assert(text::texts(rest@).to_set() =~= had.to_set().remove(cache_key@));
                    assert(prev[path] == had.to_set());
                    if rest.len() == 0 {
                        links_remove(&mut self.inner, file_paths[i].as_str());
                        assert(prev[path].remove(cache_key@) =~= Set::empty());
                    } else {
                        assert(text::texts(rest@).to_set().contains(text::texts(rest@)[0]));
                        links_insert(&mut self.inner, file_paths[i].clone(), rest);
                    }
                    assert(self@ =~= without_key(prev, set![path], cache_key@));
                },
                None => {
                    assert(self@ =~= without_key(prev, set![path], cache_key@));
                },
            }
            proof {
                assert(paths.take(i + 1) =~= paths.take(i as int).push(path));
                paths.take(i as int).lemma_push_to_set_commute(path);
                lemma_without_key_step(before, paths.take(i as int).to_set(), path, cache_key@);
            }
            i = i + 1;
        }
        assert(paths.take(file_paths@.len() as int) =~= paths);
    }

    /// Drop all links.
    pub fn clear(&mut self)
        ensures
            final(self).wf(),
            final(self)@ == Map::<Seq<char>, Set<Seq<char>>>::empty(),
    {
        links_clear(&mut self.inner);
        assert(self@ =~= Map::empty());
    }

    /// The number of files in the index.
    pub fn len(&self) -> (r: usize)
        ensures
            r == self@.dom().len(),
    {
        assert(self@.dom() =~= links_of(self.inner).dom());
        links_len(&self.inner)
    }

    /// Whether there is no file in the index.
    pub fn is_empty(&self) -> (r: bool)
        requires
            self.wf(),
        ensures
            r == (self@ == Map::<Seq<char>, Set<Seq<char>>>::empty()),
    {
        proof {
            self.lemma_no_empty_sets();
            if self@.dom().len() == 0 {
                assert(self@ =~= Map::empty()) by {
                    assert(self@.dom() =~= Set::empty());
                }
            } else {
                assert(Map::<Seq<char>, Set<Seq<char>>>::empty().dom() =~= Set::empty());
            }
        }
        self.len() == 0
    }
}

/// Dropping a key from some files and then from one more.
proof fn lemma_without_key_step(
    links: Links,
    paths: Set<Seq<char>>,
    path: Seq<char>,
    key: Seq<char>,
)
    ensures
        without_key(without_key(links, paths, key), set![path], key) == without_key(
            links,
            paths.insert(path),
            key,
        ),
{
    let first = without_key(links, paths, key);
    let both = without_key(first, set![path], key);
    let at_once = without_key(links, paths.insert(path), key);
    if links.contains_key(path) {
        assert(links[path].remove(key).remove(key) =~= links[path].remove(key));
    }
    assert(both =~= at_once);
}

/// What one more file adds to the keys that depend on some files.
proof fn lemma_depends_step(links: Links, paths: Seq<Seq<char>>, i: int, key: Seq<char>)
    requires
        0 <= i < paths.len(),
    ensures
        depends_on_any(links, paths.take(i + 1), key) <==> depends_on_any(
            links,
            paths.take(i),
            key,
        ) || keys_of(links, paths[i]).contains(key),
{
    let shorter = paths.take(i);
    let longer = paths.take(i + 1);
    if depends_on_any(links, shorter, key) {
        let j = choose|j: int|
            0 <= j < shorter.len() && keys_of(links, #[trigger] shorter[j]).contains(key);
        assert(longer[j] == shorter[j]);
    }
    assert(longer[i] == paths[i]);
    if depends_on_any(links, longer, key) {
        let j = choose|j: int|
            0 <= j < longer.len() && keys_of(links, #[trigger] longer[j]).contains(key);
        if j < i {
            assert(shorter[j] == longer[j]);
        }
    }
}

/// A key depends on some files if and only if one of them is linked to it.
pub proof fn law_linked_key_is_found(
    links: Links,
    paths: Seq<Seq<char>>,
    path: Seq<char>,
    key: Seq<char>,
)
    ensures
        paths.contains(path) && links.contains_key(path) && links[path].contains(key)
            ==> depends_on_any(links, paths, key),
        depends_on_any(links, paths, key) ==> exists|p: Seq<char>| #[trigger]
            paths.contains(p) && links.contains_key(p) && links[p].contains(key),
{
    if paths.contains(path) {
        let i = choose|i: int| 0 <= i < paths.len() && paths[i] == path;
        assert(keys_of(links, path) == keys_of(links, paths[i]));
    }
    if depends_on_any(links, paths, key) {
        let i = choose|i: int| 0 <= i < paths.len() && keys_of(links, #[trigger] paths[i]).contains(
            key,
        );
        assert(paths.contains(paths[i]));
    }
}

/// Dropping a key from some files drops the links from those files to that key and
/// no others, and leaves no file without a key that had none but it.
pub proof fn law_dropping_a_key_drops_its_links(
    links: Links,
    paths: Set<Seq<char>>,
    key: Seq<char>,
    path: Seq<char>,
    other: Seq<char>,
)
    ensures
        ({
            let after = without_key(links, paths, key);
            &&& keys_of(after, path).contains(other) <==> links.contains_key(path)
                && links[path].contains(other) && !(other == key && paths.contains(path))
            &&& after.contains_key(path) && paths.contains(path) ==> exists|k: Seq<char>|
                after[path].contains(k)
        }),
{
    let after = without_key(links, paths, key);
    if links.contains_key(path) && paths.contains(path) {
        let rest = links[path].remove(key);
        if rest != Set::<Seq<char>>::empty() {
            assert(exists|k: Seq<char>| rest.contains(k)) by {
                if forall|k: Seq<char>| !rest.contains(k) {
                    assert(rest =~= Set::empty());
                }
            }
        } else {
            assert(!rest.contains(other));
        }
    }
}

} // verus!
