//! The files that changed on disk and that the backend's index may not reflect yet.
//!
//! The indexer reports a change as soon as it sees it, with the modification time
//! of the file. An answer built on a file so marked is kept only once the index
//! has caught up, that is when it reports a modification time no smaller than the
//! observed one; then the mark goes.
//!
//! A mark belongs to a scope and a path: one relative path may stand in several
//! repositories.

use crate::clock::{Clock, Moment, Span};
use crate::text;
use dashmap::DashMap;
use vstd::prelude::*;

verus! {

/// The mark on a changed file.
#[derive(Debug, Clone, Copy, PartialEq, Eq, Structural)]
pub struct DirtyEntry {
    /// The greatest modification time observed, in seconds.
    pub observed: i64,
    /// When the file was last marked.
    pub marked_at: Moment,
}

/// The marks, by scope and path.
pub type Marks = Map<(Seq<char>, Seq<char>), DirtyEntry>;

/// What a list of scopes and paths holds.
pub open spec fn pairs(list: Seq<(String, String)>) -> Seq<(Seq<char>, Seq<char>)> {
    list.map_values(|p: (String, String)| (p.0@, p.1@))
}

/// What the table of marks holds.
pub uninterp spec fn marks_of(m: DashMap<(String, String), DirtyEntry>) -> Map<
    (Seq<char>, Seq<char>),
    DirtyEntry,
>;

/// `DashMap::new`: an empty table.
#[verifier::external_body]
fn marks_new() -> (m: DashMap<(String, String), DirtyEntry>)
    ensures
        (marks_of(m) == Map::<(Seq<char>, Seq<char>), DirtyEntry>::empty()),
{
    DashMap::new()
}

/// `DashMap::get`: a copy of the value under a key, if there is one.
#[verifier::external_body]
fn marks_get(m: &DashMap<(String, String), DirtyEntry>, scope: &str, path: &str) -> (r: Option<
    DirtyEntry,
>)
    ensures
        (match r {
            Some(mark) => marks_of(*m).contains_key((scope@, path@)) && marks_of(*m)[(
                scope@,
                path@,
            )] == mark,
            None => !marks_of(*m).contains_key((scope@, path@)),
        }),
{
    m.get(&(scope.to_string(), path.to_string())).map(|mark| *mark.value())
}

/// `DashMap::insert`: a value under a key, in place of the one before.
#[verifier::external_body]
fn marks_insert(
    m: &mut DashMap<(String, String), DirtyEntry>,
    scope: &str,
    path: &str,
    mark: DirtyEntry,
)
    ensures
        marks_of(*final(m)) == marks_of(*old(m)).insert((scope@, path@), mark),
{
    m.insert((scope.to_string(), path.to_string()), mark);
}

/// `DashMap::remove`: no value under a key any more.
#[verifier::external_body]
fn marks_remove(m: &mut DashMap<(String, String), DirtyEntry>, scope: &str, path: &str)
    ensures
        marks_of(*final(m)) == marks_of(*old(m)).remove((scope@, path@)),
{
    m.remove(&(scope.to_string(), path.to_string()));
}

/// `DashMap::iter`: clones of the keys, each of them once. Their order is left open.
#[verifier::external_body]
fn marks_keys(m: &DashMap<(String, String), DirtyEntry>) -> (r: Vec<(String, String)>)
    ensures
        pairs(r@).no_duplicates(),
        pairs(r@).to_set() == marks_of(*m).dom(),
{
    m.iter().map(|mark| mark.key().clone()).collect()
}

/// `DashMap::len`: the number of keys.
#[verifier::external_body]
fn marks_len(m: &DashMap<(String, String), DirtyEntry>) -> (r: usize)
    ensures
        r == marks_of(*m).dom().len(),
{
    m.len()
}

/// The mark after one more report: the greater of the observed times stays.
pub open spec fn marked(
    marks: Marks,
    scope: Seq<char>,
    path: Seq<char>,
    observed: i64,
    now: Moment,
) -> Marks {
    let key = (scope, path);
    let greatest = if marks.contains_key(key) && marks[key].observed > observed {
        marks[key].observed
    } else {
        observed
    };
    marks.insert(key, DirtyEntry { observed: greatest, marked_at: now })
}

/// Whether one of some paths is marked in a scope.
pub open spec fn some_marked(marks: Marks, scope: Seq<char>, paths: Seq<Seq<char>>) -> bool {
    exists|i: int| 0 <= i < paths.len() && marks.contains_key((scope, #[trigger] paths[i]))
}

/// The marks once the index reports a time for a path.
pub open spec fn cleared(marks: Marks, scope: Seq<char>, path: Seq<char>, index_mtime: i64) -> Marks {
    let key = (scope, path);
    if marks.contains_key(key) && index_mtime >= marks[key].observed {
        marks.remove(key)
    } else {
        marks
    }
}

/// The marks that are younger than `ttl` at `now`.
pub open spec fn younger(marks: Marks, ttl: Span, now: Moment) -> Marks {
    Map::new(
        |k: (Seq<char>, Seq<char>)|
            marks.contains_key(k) && now.since(marks[k].marked_at).nanos < ttl.nanos,
        |k: (Seq<char>, Seq<char>)| marks[k],
    )
}

/// The marks on changed files.
pub struct DirtySet {
    inner: DashMap<(String, String), DirtyEntry>,
    clock: Clock,
}

impl View for DirtySet {
    type V = Marks;

    closed spec fn view(&self) -> Marks {
        marks_of(self.inner)
    }
}

impl Default for DirtySet {
    fn default() -> (r: Self)
        ensures
            r.wf(),
            r@ == Map::<(Seq<char>, Seq<char>), DirtyEntry>::empty(),
    {
        DirtySet::new()
    }
}

impl DirtySet {
    /// There are finitely many marks.
    pub open spec fn wf(&self) -> bool {
        self@.dom().finite()
    }

    /// The clock that the set reads.
    pub closed spec fn clock(&self) -> Clock {
        self.clock
    }

    /// An empty set with a clock of its own.
    pub fn new() -> (r: DirtySet)
        ensures
            r.wf(),
            r@ == Map::<(Seq<char>, Seq<char>), DirtyEntry>::empty(),
    {
        DirtySet::with_clock(Clock::new())
    }

    /// An empty set that reads a given clock.
    pub fn with_clock(clock: Clock) -> (r: DirtySet)
        ensures
            r.wf(),
            r@ == Map::<(Seq<char>, Seq<char>), DirtyEntry>::empty(),
            r.clock() == clock,
    {
        DirtySet { inner: marks_new(), clock }
    }

    /// Mark a path with an observed modification time. Of several times the
    /// greatest stays.
    pub fn mark(&mut self, scope: &str, path: &str, observed_mtime: i64)
        requires
            old(self).wf(),
        ensures
            final(self).wf(),
            final(self).clock() == old(self).clock(),
            exists|now: Moment|
                now.is_reading() && old(self).clock().reports(now) && final(self)@ == #[trigger] marked(
                    old(self)@,
                    scope@,
                    path@,
                    observed_mtime,
                    now,
                ),
    {
        let now = self.clock.now();
        self.mark_at(scope, path, observed_mtime, now);
    }

    /// Mark a path at `now` with an observed modification time. Of several times
    /// the greatest stays.
    pub fn mark_at(&mut self, scope: &str, path: &str, observed_mtime: i64, now: Moment)
        requires
            old(self).wf(),
        ensures
            final(self).wf(),
            final(self).clock() == old(self).clock(),
            final(self)@ == marked(old(self)@, scope@, path@, observed_mtime, now),
    {
        let greatest: i64 = match marks_get(&self.inner, scope, path) {
            Some(mark) => if mark.observed > observed_mtime {
                mark.observed
            } else {
                observed_mtime
            },
            None => observed_mtime,
        };
        marks_insert(
            &mut self.inner,
            scope,
            path,
            DirtyEntry { observed: greatest, marked_at: now },
        );
    }

    /// The observed modification time of a path that is marked in a scope.
    pub fn observed(&self, scope: &str, path: &str) -> (r: Option<i64>)
        ensures
            r == if self@.contains_key((scope@, path@)) {
                Some(self@[(scope@, path@)].observed)
            } else {
                None
            },
    {
        match marks_get(&self.inner, scope, path) {
            Some(mark) => Some(mark.observed),
            None => None,
        }
    }

    /// Whether one of the paths is marked in a scope.
    pub fn any_dirty(&self, scope: &str, paths: &[String]) -> (r: bool)
        requires
            self.wf(),
        ensures
            r == some_marked(self@, scope@, text::texts(paths@)),
    {
        let ghost all = text::texts(paths@);
        if self.len() == 0 {
            assert(self@.dom() =~= Set::empty());
            return false;
        }
        let mut i: usize = 0;
        while i < paths.len()
            invariant
                i <= paths@.len(),
                all == text::texts(paths@),
                forall|j: int| 0 <= j < i ==> !self@.contains_key((scope@, #[trigger] all[j])),
            decreases paths@.len() - i,
        {
            if self.observed(scope, paths[i].as_str()).is_some() {
                assert(self@.contains_key((scope@, all[i as int])));
                return true;
            }
            i = i + 1;
        }
        false
    }

    /// Take the mark off a path if the index has caught up, that is if
    /// `index_mtime` is no smaller than the observed time.
    pub fn clear_if_caught_up(&mut self, scope: &str, path: &str, index_mtime: i64)
        requires
            old(self).wf(),
        ensures
            final(self).wf(),
            final(self).clock() == old(self).clock(),
            final(self)@ == cleared(old(self)@, scope@, path@, index_mtime),
    {
        match marks_get(&self.inner, scope, path) {
            Some(mark) => {
                if index_mtime >= mark.observed {
                    marks_remove(&mut self.inner, scope, path);
                }
            },
            None => {},
        }
    }

    /// The number of marks.
    pub fn len(&self) -> (r: usize)
        ensures
            r == self@.dom().len(),
    {
        marks_len(&self.inner)
    }

    /// Whether there is no mark.
    pub fn is_empty(&self) -> (r: bool)
        requires
            self.wf(),
        ensures
            r == (self@ == Map::<(Seq<char>, Seq<char>), DirtyEntry>::empty()),
    {
        proof {
            if self@.dom().len() == 0 {
                assert(self@.dom() =~= Set::empty());
                assert(self@ =~= Map::empty());
            } else {
                assert(Map::<(Seq<char>, Seq<char>), DirtyEntry>::empty().dom() =~= Set::empty());
            }
        }
        self.len() == 0
    }

    /// Take off the marks that are no younger than `ttl`, in case no read ever
    /// does, and say how many they were.
    pub fn prune_older_than(&mut self, ttl: Span) -> (r: usize)
        requires
            old(self).wf(),
        ensures
            final(self).wf(),
            final(self).clock() == old(self).clock(),
            exists|now: Moment|
                now.is_reading() && old(self).clock().reports(now) && final(self)@
                    == #[trigger] younger(old(self)@, ttl, now),
            r + final(self)@.dom().len() == old(self)@.dom().len(),
    {
        let now = self.clock.now();
        self.prune_older_than_at(ttl, now)
    }

    /// Take off the marks that are no younger than `ttl` at `now`, and say how
    /// many they were.
    pub fn prune_older_than_at(&mut self, ttl: Span, now: Moment) -> (r: usize)
        requires
            old(self).wf(),
        ensures
            final(self).wf(),
            final(self).clock() == old(self).clock(),
            final(self)@ == younger(old(self)@, ttl, now),
            r + final(self)@.dom().len() == old(self)@.dom().len(),
    {
        let ghost before = self@;
        let keys = marks_keys(&self.inner);
        let ghost all = pairs(keys@);
        let mut removed: usize = 0;
        let mut i: usize = 0;
        while i < keys.len()
            invariant
                self.wf(),
                self.clock() == old(self).clock(),
                i <= keys@.len(),
                all == pairs(keys@),
                all.no_duplicates(),
                all.to_set() == before.dom(),
                removed <= i,
                removed + self@.dom().len() == before.dom().len(),
                forall|k: (Seq<char>, Seq<char>)| #[trigger]
                    self@.contains_key(k) <==> before.contains_key(k) && !(all.take(
                        i as int,
                    ).contains(k) && now.since(before[k].marked_at).nanos >= ttl.nanos),
                forall|k: (Seq<char>, Seq<char>)| #[trigger]
                    self@.contains_key(k) ==> self@[k] == before[k],
            decreases keys@.len() - i,
        {
            let ghost key = all[i as int];
            let ghost prev = self@;
            proof {
                assert(all.to_set().contains(key));
                assert(!all.take(i as int).contains(key));
                assert(prev.contains_key(key));
                assert(all.take(i + 1) =~= all.take(i as int).push(key));
            }
            match marks_get(&self.inner, keys[i].0.as_str(), keys[i].1.as_str()) {
                Some(mark) => {
                    if now.elapsed_since(mark.marked_at).nanos >= ttl.nanos {
                        marks_remove(&mut self.inner, keys[i].0.as_str(), keys[i].1.as_str());
                        removed = removed + 1;
                        assert(self@ == prev.remove(key));
                    }
                },
                None => {},
            }
            proof {
                assert forall|k: (Seq<char>, Seq<char>)| #[trigger]
                    self@.contains_key(k) <==> before.contains_key(k) && !(all.take(
                        i + 1,
                    ).contains(k) && now.since(before[k].marked_at).nanos >= ttl.nanos) by {
                    text::lemma_push_contains(all.take(i as int), key, k);
                    assert(prev.contains_key(k) <==> before.contains_key(k) && !(all.take(
                        i as int,
                    ).contains(k) && now.since(before[k].marked_at).nanos >= ttl.nanos));
                }
            }
            i = i + 1;
        }
        proof {
            assert(all.take(keys@.len() as int) =~= all);
            assert forall|k: (Seq<char>, Seq<char>)| all.contains(k) == before.contains_key(k) by {
                assert(all.to_set().contains(k) == all.contains(k));
            }
            assert(self@ =~= younger(before, ttl, now));
        }
        removed
    }
}

/// Marks of one scope and marks of another do not meet: a report for a path in
/// one scope changes nothing in another.
pub proof fn law_scopes_are_marked_apart(
    marks: Marks,
    scope: Seq<char>,
    path: Seq<char>,
    observed: i64,
    now: Moment,
    other: Seq<char>,
    any: Seq<char>,
)
    requires
        scope != other,
    ensures
        marked(marks, scope, path, observed, now).contains_key((other, any)) == marks.contains_key(
            (other, any),
        ),
        marks.contains_key((other, any)) ==> marked(marks, scope, path, observed, now)[(
            other,
            any,
        )] == marks[(other, any)],
{
}

/// A mark holds the greatest time that was ever reported for it, and goes only
/// when the index reports a time no smaller than that.
pub proof fn law_mark_waits_for_the_latest_change(
    marks: Marks,
    scope: Seq<char>,
    path: Seq<char>,
    first: i64,
    second: i64,
    then: Moment,
    now: Moment,
    index_mtime: i64,
)
    requires
        !marks.contains_key((scope, path)),
    ensures
        ({
            let twice = marked(marked(marks, scope, path, first, then), scope, path, second, now);
            &&& twice[(scope, path)].observed >= first
            &&& twice[(scope, path)].observed >= second
            &&& twice[(scope, path)].observed == first || twice[(scope, path)].observed == second
            &&& cleared(twice, scope, path, index_mtime).contains_key((scope, path)) <==> (
            index_mtime < first || index_mtime < second)
        }),
{
}

/// A report marks its file with a time no smaller than the reported one and no
/// smaller than before, at the moment of the report, and leaves every other mark
/// as it was, in the same scope too.
pub proof fn law_report_marks_one_file(
    marks: Marks,
    scope: Seq<char>,
    path: Seq<char>,
    observed: i64,
    now: Moment,
    other: (Seq<char>, Seq<char>),
)
    ensures
        ({
            let after = marked(marks, scope, path, observed, now);
            let mark = after[(scope, path)];
            &&& after.contains_key((scope, path))
            &&& mark.marked_at == now
            &&& mark.observed >= observed
            &&& marks.contains_key((scope, path)) ==> mark.observed >= marks[(
                scope,
                path,
            )].observed
            &&& mark.observed == observed || (marks.contains_key((scope, path)) && mark.observed
                == marks[(scope, path)].observed)
            &&& other != (scope, path) ==> {
                &&& after.contains_key(other) == marks.contains_key(other)
                &&& marks.contains_key(other) ==> after[other] == marks[other]
            }
        }),
{
}

/// A time that the index reports takes the mark off its file if it is no smaller
/// than the observed one, and changes no other mark.
pub proof fn law_index_time_clears_one_mark(
    marks: Marks,
    scope: Seq<char>,
    path: Seq<char>,
    index_mtime: i64,
    other: (Seq<char>, Seq<char>),
)
    ensures
        ({
            let after = cleared(marks, scope, path, index_mtime);
            &&& after.contains_key((scope, path)) <==> marks.contains_key((scope, path))
                && index_mtime < marks[(scope, path)].observed
            &&& other != (scope, path) ==> after.contains_key(other) == marks.contains_key(other)
            &&& after.contains_key(other) ==> after[other] == marks[other]
        }),
{
}

/// A file is seen as marked if and only if its own scope and path are, at whatever
/// place it stands in the list.
pub proof fn law_marked_file_is_found(
    marks: Marks,
    scope: Seq<char>,
    paths: Seq<Seq<char>>,
    path: Seq<char>,
)
    ensures
        paths.contains(path) && marks.contains_key((scope, path)) ==> some_marked(
            marks,
            scope,
            paths,
        ),
        some_marked(marks, scope, paths) ==> exists|p: Seq<char>|
            paths.contains(p) && #[trigger] marks.contains_key((scope, p)),
{
    if paths.contains(path) {
        let i = choose|i: int| 0 <= i < paths.len() && paths[i] == path;
        assert(marks.contains_key((scope, path)) ==> marks.contains_key((scope, paths[i])));
    }
    if some_marked(marks, scope, paths) {
        let i = choose|i: int| 0 <= i < paths.len() && marks.contains_key(
            (scope, #[trigger] paths[i]),
        );
        assert(paths.contains(paths[i]));
    }
}

/// Pruning takes off exactly the marks whose last report is at least `ttl` old,
/// and changes no other.
pub proof fn law_pruning_takes_off_old_marks(
    marks: Marks,
    ttl: Span,
    now: Moment,
    key: (Seq<char>, Seq<char>),
)
    requires
        marks.contains_key(key),
        marks[key].marked_at.nanos <= now.nanos,
    ensures
        younger(marks, ttl, now).contains_key(key) <==> now.nanos < marks[key].marked_at.nanos
            + ttl.nanos,
        younger(marks, ttl, now).contains_key(key) ==> younger(marks, ttl, now)[key] == marks[key],
        younger(marks, ttl, now).dom().subset_of(marks.dom()),
{
}

} // verus!
