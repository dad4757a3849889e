//! Freezes: for some time a scope, or every scope, is refused.
//!
//! A freeze is set from outside while the backend would answer with data that is
//! out of date. A frozen scope gets an error that says when to come back; neither
//! the cache nor the backend is asked. The empty scope stands for all scopes.

use crate::clock::{Clock, Moment, Span};
use crate::text;
use vstd::prelude::*;

verus! {

/// The scopes with the moments at which their freezes end.
pub type Freezes = Seq<(Seq<char>, Moment)>;

/// The position of a scope, -1 if it is not there.
pub open spec fn scope_index(fs: Freezes, scope: Seq<char>) -> int
    decreases fs.len(),
{
    if fs.len() == 0 {
        -1
    } else if fs.last().0 == scope {
        fs.len() - 1
    } else {
        scope_index(fs.drop_last(), scope)
    }
}

/// The moment at which the freeze of a scope ends.
pub open spec fn until(fs: Freezes, scope: Seq<char>) -> Option<Moment> {
    if scope_index(fs, scope) >= 0 {
        Some(fs[scope_index(fs, scope)].1)
    } else {
        None
    }
}

/// Whether no scope stands twice.
pub open spec fn distinct(fs: Freezes) -> bool {
    forall|i: int, j: int| 0 <= i < j < fs.len() ==> (#[trigger] fs[i]).0 != (#[trigger] fs[j]).0
}

/// How long the freeze of exactly this scope still lasts at `now`.
pub open spec fn own_rest(fs: Freezes, scope: Seq<char>, now: Moment) -> Option<Span> {
    match until(fs, scope) {
        Some(end) => if end.nanos > now.nanos {
            Some(end.since(now))
        } else {
            None
        },
        None => None,
    }
}

/// How long a scope is still frozen at `now`: by a freeze of all scopes, else by its own.
pub open spec fn rest(fs: Freezes, scope: Seq<char>, now: Moment) -> Option<Span> {
    match own_rest(fs, Seq::empty(), now) {
        Some(span) => Some(span),
        None => if scope.len() > 0 {
            own_rest(fs, scope, now)
        } else {
            None
        },
    }
}

/// The freezes with one more; of two ends for a scope the later one stays.
pub open spec fn with_freeze(fs: Freezes, scope: Seq<char>, end: Moment) -> Freezes {
    match until(fs, scope) {
        Some(before) => fs.update(
            scope_index(fs, scope),
            (
                scope,
                if end.nanos > before.nanos {
                    end
                } else {
                    before
                },
            ),
        ),
        None => fs.push((scope, end)),
    }
}

/// The freezes without that of a scope.
pub open spec fn without_freeze(fs: Freezes, scope: Seq<char>) -> Freezes {
    if scope_index(fs, scope) >= 0 {
        fs.remove(scope_index(fs, scope))
    } else {
        fs
    }
}

/// A freeze that is on, with the whole seconds it still lasts.
#[derive(Debug)]
pub struct FreezeEntry {
    pub scope: String,
    pub ttl_remaining_seconds: u64,
}

impl View for FreezeEntry {
    type V = (Seq<char>, u64);

    open spec fn view(&self) -> (Seq<char>, u64) {
        (self.scope@, self.ttl_remaining_seconds)
    }
}

/// What a list of freezes that are on says.
pub open spec fn listing(list: Seq<FreezeEntry>) -> Seq<(Seq<char>, u64)> {
    list.map_values(|e: FreezeEntry| e@)
}

/// The freezes that are on at `now`.
pub open spec fn active(fs: Freezes, now: Moment) -> Seq<(Seq<char>, u64)>
    decreases fs.len(),
{
    if fs.len() == 0 {
        Seq::empty()
    } else {
        let head = active(fs.drop_last(), now);
        if fs.last().1.nanos > now.nanos {
            head.push((fs.last().0, fs.last().1.since(now).secs()))
        } else {
            head
        }
    }
}

/// The freezes: each scope with the moment at which its freeze ends.
#[derive(Debug)]
pub struct FreezeState {
    pub frozen: Vec<(String, Moment)>,
}

impl View for FreezeState {
    type V = Freezes;

    open spec fn view(&self) -> Freezes {
        self.frozen@.map_values(|f: (String, Moment)| (f.0@, f.1))
    }
}

impl FreezeState {
    /// No freezes.
    pub fn new() -> (r: FreezeState)
        ensures
            r@ == Seq::<(Seq<char>, Moment)>::empty(),
    {
        let r = FreezeState { frozen: Vec::new() };
        assert(r@ =~= Seq::empty());
        r
    }

    /// The position of a scope.
    fn index_of(&self, scope: &str) -> (r: Option<usize>)
        ensures
            match r {
                Some(i) => i < self.frozen@.len() && scope_index(self@, scope@) == i,
                None => scope_index(self@, scope@) == -1,
            },
    {
        let mut i: usize = self.frozen.len();
        assert(self@.take(i as int) =~= self@);
        while i > 0
            invariant
                i <= self.frozen@.len(),
                scope_index(self@, scope@) == scope_index(self@.take(i as int), scope@),
            decreases i,
        {
            assert(self@.take(i as int).drop_last() =~= self@.take(i - 1));
            i = i - 1;
            if text::text_eq(self.frozen[i].0.as_str(), scope) {
                return Some(i);
            }
        }
        None
    }

    /// How long the freeze of exactly this scope still lasts at `now`.
    fn own_rest_of(&self, scope: &str, now: Moment) -> (r: Option<Span>)
        ensures
            r == own_rest(self@, scope@, now),
    {
        match self.index_of(scope) {
            Some(i) => {
                let end: Moment = self.frozen[i].1;
                if end.nanos > now.nanos {
                    Some(end.elapsed_since(now))
                } else {
                    None
                }
            },
            None => None,
        }
    }

    /// How long a scope is still frozen at `now`, by a freeze of all scopes or by
    /// its own.
    pub fn is_frozen(&self, scope: &str, now: Moment) -> (r: Option<Span>)
        ensures
            r == rest(self@, scope@, now),
    {
        proof {
            reveal_strlit("");
            assert(""@ =~= Seq::empty());
        }
        match self.own_rest_of("", now) {
            Some(span) => Some(span),
            None => if scope.is_empty() {
                None
            } else {
                self.own_rest_of(scope, now)
            },
        }
    }
}

/// Sets, lifts and looks up freezes.
pub struct FreezeController {
    state: FreezeState,
    clock: Clock,
}

impl View for FreezeController {
    type V = Freezes;

    closed spec fn view(&self) -> Freezes {
        self.state@
    }
}

impl Default for FreezeState {
    fn default() -> (r: Self)
        ensures
            r@ == Seq::<(Seq<char>, Moment)>::empty(),
    {
        FreezeState::new()
    }
}

impl Default for FreezeController {
    fn default() -> (r: Self)
        ensures
            r.wf(),
            r@ == Seq::<(Seq<char>, Moment)>::empty(),
    {
        FreezeController::new()
    }
}

impl FreezeController {
    /// No scope stands twice.
    pub open spec fn wf(&self) -> bool {
        distinct(self@)
    }

    /// The clock that the controller reads.
    pub closed spec fn clock(&self) -> Clock {
        self.clock
    }

    /// No freezes, and a clock of its own.
    pub fn new() -> (r: FreezeController)
        ensures
            r.wf(),
            r@ == Seq::<(Seq<char>, Moment)>::empty(),
    {
        FreezeController::with_clock(Clock::new())
    }

    /// No freezes, and a given clock.
    pub fn with_clock(clock: Clock) -> (r: FreezeController)
        ensures
            r.wf(),
            r@ == Seq::<(Seq<char>, Moment)>::empty(),
            r.clock() == clock,
    {
        FreezeController { state: FreezeState::new(), clock }
    }

    /// Freeze a scope, all of them if it is empty. Of two freezes of a scope the
    /// one that lasts longer stays.
    pub fn freeze(&mut self, scope: &str, duration: Span)
        requires
            old(self).wf(),
        ensures
            final(self).wf(),
            final(self).clock() == old(self).clock(),
            exists|now: Moment|
                now.is_reading() && old(self).clock().reports(now) && final(self)@ == with_freeze(
                    old(self)@,
                    scope@,
                    #[trigger] now.after(duration),
                ),
    {
        let now = self.clock.now();
        self.freeze_at(scope, duration, now);
    }

    /// Freeze a scope from `now` on.
    pub fn freeze_at(&mut self, scope: &str, duration: Span, now: Moment)
        requires
            old(self).wf(),
        ensures
            final(self).wf(),
            final(self).clock() == old(self).clock(),
            final(self)@ == with_freeze(old(self)@, scope@, now.after(duration)),
    {
        let end = now.plus(duration);
        proof {
            lemma_scope_index(self@, scope@);
        }
        match self.state.index_of(scope) {
            Some(i) => {
                let before: Moment = self.state.frozen[i].1;
                let later: Moment = if end.nanos > before.nanos {
                    end
                } else {
                    before
                };
                self.state.frozen.set(i, (scope.to_string(), later));
                assert(self@ =~= old(self)@.update(i as int, (scope@, later)));
                assert(distinct(self@)) by {
                    assert forall|a: int, b: int| 0 <= a < b < self@.len() implies (
                    #[trigger] self@[a]).0 != (#[trigger] self@[b]).0 by {
                        assert(old(self)@[a].0 != old(self)@[b].0);
                    }
                }
            },
            None => {
                self.state.frozen.push((scope.to_string(), end));
                assert(self@ =~= old(self)@.push((scope@, end)));
                assert(distinct(self@)) by {
                    assert forall|a: int, b: int| 0 <= a < b < self@.len() implies (
                    #[trigger] self@[a]).0 != (#[trigger] self@[b]).0 by {
                        if b < old(self)@.len() {
                            assert(old(self)@[a].0 != old(self)@[b].0);
                        } else {
                            assert(old(self)@[a].0 != scope@);
                        }
                    }
                }
            },
        }
    }

    /// Lift the freeze of a scope. Without one nothing changes.
    pub fn thaw(&mut self, scope: &str)
        requires
            old(self).wf(),
        ensures
            final(self).wf(),
            final(self).clock() == old(self).clock(),
            final(self)@ == without_freeze(old(self)@, scope@),
    {
        match self.state.index_of(scope) {
            Some(i) => {
                self.state.frozen.remove(i);
                assert(self@ =~= old(self)@.remove(i as int));
                assert(distinct(self@)) by {
                    assert forall|a: int, b: int| 0 <= a < b < self@.len() implies (
                    #[trigger] self@[a]).0 != (#[trigger] self@[b]).0 by {
                        let x = if a < i {
                            a
                        } else {
                            a + 1
                        };
                        let y = if b < i {
                            b
                        } else {
                            b + 1
                        };
                        assert(old(self)@[x].0 != old(self)@[y].0);
                    }
                }
            },
            None => {},
        }
    }

    /// Lift all freezes.
    pub fn thaw_all(&mut self)
        ensures
            final(self).wf(),
            final(self).clock() == old(self).clock(),
            final(self)@ == Seq::<(Seq<char>, Moment)>::empty(),
    {
        self.state = FreezeState::new();
    }

    /// How long a scope is still frozen.
    pub fn is_frozen(&self, scope: &str) -> (r: Option<Span>)
        ensures
            exists|now: Moment|
                now.is_reading() && self.clock().reports(now) && r == #[trigger] rest(
                    self@,
                    scope@,
                    now,
                ),
    {
        let now = self.clock.now();
        self.is_frozen_at(scope, now)
    }

    /// How long a scope is still frozen at `now`.
    pub fn is_frozen_at(&self, scope: &str, now: Moment) -> (r: Option<Span>)
        ensures
            r == rest(self@, scope@, now),
    {
        self.state.is_frozen(scope, now)
    }

    /// The freezes that are on.
    pub fn list_active(&self) -> (r: Vec<FreezeEntry>)
        ensures
            exists|now: Moment|
                now.is_reading() && self.clock().reports(now) && listing(r@) == #[trigger] active(
                    self@,
                    now,
                ),
    {
        let now = self.clock.now();
        self.list_active_at(now)
    }

    /// The freezes that are on at `now`.
    pub fn list_active_at(&self, now: Moment) -> (r: Vec<FreezeEntry>)
        ensures
            listing(r@) == active(self@, now),
    {
        let mut out: Vec<FreezeEntry> = Vec::new();
        let mut i: usize = 0;
        assert(listing(out@) =~= active(self@.take(0), now));
        while i < self.state.frozen.len()
            invariant
                i <= self.state.frozen@.len(),
                listing(out@) == active(self@.take(i as int), now),
            decreases self.state.frozen@.len() - i,
        {
            let ghost before = out@;
            assert(self@.take(i + 1).drop_last() =~= self@.take(i as int));
            let end: Moment = self.state.frozen[i].1;
            if end.nanos > now.nanos {
                let entry = FreezeEntry {
                    scope: self.state.frozen[i].0.clone(),
                    ttl_remaining_seconds: end.elapsed_since(now).as_secs(),
                };
                out.push(entry);
                assert(listing(out@) =~= listing(before).push(entry@));
            }
            i = i + 1;
        }
        assert(self@.take(self.state.frozen@.len() as int) =~= self@);
        out
    }
}

/// Where a scope stands.
pub proof fn lemma_scope_index(fs: Freezes, scope: Seq<char>)
    ensures
        -1 <= scope_index(fs, scope) < fs.len(),
        scope_index(fs, scope) >= 0 ==> fs[scope_index(fs, scope)].0 == scope,
        forall|i: int| scope_index(fs, scope) < i < fs.len() ==> (#[trigger] fs[i]).0 != scope,
    decreases fs.len(),
{
    if fs.len() > 0 && fs.last().0 != scope {
        lemma_scope_index(fs.drop_last(), scope);
        assert forall|i: int| scope_index(fs, scope) < i < fs.len() implies (
        #[trigger] fs[i]).0 != scope by {
            if i < fs.len() - 1 {
                assert(fs.drop_last()[i].0 != scope);
            }
        }
    }
}

/// A scope that stands nowhere has no freeze.
proof fn lemma_absent(fs: Freezes, scope: Seq<char>)
    requires
        forall|i: int| 0 <= i < fs.len() ==> (#[trigger] fs[i]).0 != scope,
    ensures
        until(fs, scope) is None,
{
    lemma_scope_index(fs, scope);
}

/// A freeze lasts until the later of its old and its new end, and leaves every
/// other scope as it was.
pub proof fn law_freeze_keeps_the_later_end(
    fs: Freezes,
    scope: Seq<char>,
    end: Moment,
    other: Seq<char>,
)
    requires
        distinct(fs),
    ensures
        until(with_freeze(fs, scope, end), scope) == Some(
            match until(fs, scope) {
                Some(before) => if end.nanos > before.nanos {
                    end
                } else {
                    before
                },
                None => end,
            },
        ),
        other != scope ==> until(with_freeze(fs, scope, end), other) == until(fs, other),
{
    let out = with_freeze(fs, scope, end);
    lemma_scope_index(fs, scope);
    lemma_scope_index(fs, other);
    lemma_scope_index(out, scope);
    lemma_scope_index(out, other);
    let k = scope_index(fs, scope);
    let i = scope_index(fs, other);
    let j = scope_index(out, other);
    if k >= 0 {
        assert(out[k].0 == scope);
        let m = scope_index(out, scope);
        if m != k {
            assert(fs[m].0 == scope);
            assert(fs[k].0 != fs[m].0);
        }
    }
    if other != scope {
        if i >= 0 {
            assert(out[i].0 == other);
            assert(j >= i);
            if j > i {
                assert(fs[j].0 == other);
            }
        } else if j >= 0 {
            assert(fs[j].0 == other);
        }
    }
}

/// A freeze of all scopes refuses every scope for as long as it lasts.
pub proof fn law_freeze_of_all_covers_every_scope(
    fs: Freezes,
    end: Moment,
    scope: Seq<char>,
    now: Moment,
)
    requires
        distinct(fs),
        end.nanos > now.nanos,
    ensures
        rest(with_freeze(fs, Seq::empty(), end), scope, now) is Some,
{
    law_freeze_keeps_the_later_end(fs, Seq::empty(), end, scope);
}

/// A scope that is frozen is refused until the freeze ends and no longer, unless
/// all scopes are frozen.
pub proof fn law_freeze_ends_by_itself(
    fs: Freezes,
    scope: Seq<char>,
    end: Moment,
    now: Moment,
)
    requires
        distinct(fs),
        scope.len() > 0,
        until(fs, scope) is None,
        own_rest(fs, Seq::empty(), now) is None,
    ensures
        rest(with_freeze(fs, scope, end), scope, now) is Some <==> now.nanos < end.nanos,
        rest(with_freeze(fs, scope, end), scope, now) matches Some(span) ==> span.nanos == end.nanos
            - now.nanos,
{
    law_freeze_keeps_the_later_end(fs, scope, end, Seq::empty());
}

/// Lifting the freeze of a scope lifts that one and no other.
pub proof fn law_thaw_lifts_one_scope(fs: Freezes, scope: Seq<char>, other: Seq<char>)
    requires
        distinct(fs),
    ensures
        until(without_freeze(fs, scope), scope) is None,
        other != scope ==> until(without_freeze(fs, scope), other) == until(fs, other),
{
    let out = without_freeze(fs, scope);
    let k = scope_index(fs, scope);
    lemma_scope_index(fs, scope);
    lemma_scope_index(fs, other);
    lemma_scope_index(out, other);
    if k >= 0 {
        assert forall|i: int| 0 <= i < out.len() implies (#[trigger] out[i]).0 != scope by {
            let x = if i < k {
                i
            } else {
                i + 1
            };
            assert(out[i] == fs[x]);
            if x < k {
                assert(fs[x].0 != fs[k].0);
            } else {
                assert(fs[k].0 != fs[x].0);
            }
        }
        lemma_absent(out, scope);
        if other != scope {
            let i = scope_index(fs, other);
            let j = scope_index(out, other);
            if i >= 0 {
                let x = if i < k {
                    i
                } else {
                    i - 1
                };
                assert(out[x] == fs[i]);
                assert(j >= x);
                if j > x {
                    let y = if j < k {
                        j
                    } else {
                        j + 1
                    };
                    assert(out[j] == fs[y]);
                    assert(fs[i].0 != fs[y].0);
                }
            } else if j >= 0 {
                let y = if j < k {
                    j
                } else {
                    j + 1
                };
                assert(out[j] == fs[y]);
            }
        }
    }
}

/// The list of freezes that are on names a scope if and only if its own freeze
/// is on, with the whole seconds that it still lasts.
pub proof fn law_list_names_the_frozen_scopes(fs: Freezes, scope: Seq<char>, now: Moment)
    requires
        distinct(fs),
    ensures
        match own_rest(fs, scope, now) {
            Some(span) => active(fs, now).contains((scope, span.secs())),
            None => forall|secs: u64| !active(fs, now).contains((scope, secs)),
        },
    decreases fs.len(),
{
    lemma_scope_index(fs, scope);
    if fs.len() > 0 {
        let head = fs.drop_last();
        assert(distinct(head)) by {
            assert forall|i: int, j: int| 0 <= i < j < head.len() implies (
            #[trigger] head[i]).0 != (#[trigger] head[j]).0 by {
                assert(fs[i].0 != fs[j].0);
            }
        }
        law_list_names_the_frozen_scopes(head, scope, now);
        lemma_scope_index(head, scope);
        let on = active(head, now);
        let last = (fs.last().0, fs.last().1.since(now).secs());
        let k = scope_index(head, scope);
        if fs.last().0 == scope {
            if k >= 0 {
                assert(fs[k].0 != fs[fs.len() - 1].0);
            }
        }
        assert(on.push(last)[on.len() as int] == last);
        match own_rest(fs, scope, now) {
            Some(span) => {
                if fs.last().0 != scope {
                    let i = choose|i: int| 0 <= i < on.len() && on[i] == (scope, span.secs());
                    assert(on.push(last)[i] == (scope, span.secs()));
                }
            },
            None => {
                assert(own_rest(head, scope, now) is None);
                assert forall|secs: u64| !active(fs, now).contains((scope, secs)) by {
                    assert(!on.contains((scope, secs)));
                    if active(fs, now).contains((scope, secs)) {
                        let i = choose|i: int|
                            0 <= i < active(fs, now).len() && active(fs, now)[i] == (scope, secs);
                        if i < on.len() {
                            assert(on[i] == (scope, secs));
                        }
                    }
                }
            },
        }
    }
}

/// A scope is refused if and only if a freeze of all scopes or its own is on. The
/// time left is that of the freeze of all scopes where that is on, else that of its
/// own: from now to its end.
pub proof fn law_scope_is_refused_while_a_freeze_is_on(fs: Freezes, scope: Seq<char>, now: Moment)
    requires
        distinct(fs),
    ensures
        rest(fs, scope, now) is Some <==> exists|i: int|
            0 <= i < fs.len() && ((#[trigger] fs[i]).0.len() == 0 || fs[i].0 == scope)
                && fs[i].1.nanos > now.nanos,
        forall|i: int|
            0 <= i < fs.len() && (#[trigger] fs[i]).0.len() == 0 && fs[i].1.nanos > now.nanos ==> (
            rest(fs, scope, now) matches Some(left) && left.nanos == fs[i].1.nanos - now.nanos),
        forall|i: int|
            0 <= i < fs.len() && (#[trigger] fs[i]).0 == scope && fs[i].1.nanos > now.nanos
                && rest(fs, Seq::empty(), now) is None ==> (rest(fs, scope, now) matches Some(
                left,
            ) && left.nanos == fs[i].1.nanos - now.nanos),
{
    let all = Seq::<char>::empty();
    lemma_scope_index(fs, all);
    lemma_scope_index(fs, scope);
    let g = scope_index(fs, all);
    let k = scope_index(fs, scope);
    assert forall|i: int| 0 <= i < fs.len() && (#[trigger] fs[i]).0.len() == 0 implies i == g by {
        assert(fs[i].0 =~= all);
        if i < g {
            assert(fs[i].0 != fs[g].0);
        }
    }
    assert forall|i: int| 0 <= i < fs.len() && (#[trigger] fs[i]).0 == scope implies i == k by {
        if i < k {
            assert(fs[i].0 != fs[k].0);
        }
    }
    if rest(fs, scope, now) is Some {
        if own_rest(fs, all, now) is Some {
            assert(fs[g].0.len() == 0 && fs[g].1.nanos > now.nanos);
        } else {
            assert(fs[k].0 == scope && fs[k].1.nanos > now.nanos);
        }
    }
    if scope.len() == 0 {
        assert(scope =~= all);
    }
}

/// The list of freezes that are on has each of them once and nothing else.
pub proof fn law_list_has_nothing_else(fs: Freezes, now: Moment)
    requires
        distinct(fs),
    ensures
        forall|j: int|
            0 <= j < active(fs, now).len() ==> exists|i: int|
                0 <= i < fs.len() && (#[trigger] fs[i]).0 == (#[trigger] active(fs, now)[j]).0
                    && fs[i].1.nanos > now.nanos && active(fs, now)[j].1 == fs[i].1.since(
                    now,
                ).secs(),
        forall|i: int, j: int|
            0 <= i < j < active(fs, now).len() ==> (#[trigger] active(fs, now)[i]).0 != (
            #[trigger] active(fs, now)[j]).0,
    decreases fs.len(),
{
    if fs.len() > 0 {
        let head = fs.drop_last();
        let n = head.len() as int;
        assert(distinct(head)) by {
            assert forall|i: int, j: int| 0 <= i < j < head.len() implies (
            #[trigger] head[i]).0 != (#[trigger] head[j]).0 by {
                assert(fs[i].0 != fs[j].0);
            }
        }
        law_list_has_nothing_else(head, now);
        let on = active(head, now);
        let out = active(fs, now);
        assert forall|j: int| 0 <= j < out.len() implies exists|i: int|
            0 <= i < fs.len() && (#[trigger] fs[i]).0 == (#[trigger] out[j]).0 && fs[i].1.nanos
                > now.nanos && out[j].1 == fs[i].1.since(now).secs() by {
            if j < on.len() {
                assert(out[j] == on[j]);
                let i = choose|i: int|
                    0 <= i < head.len() && (#[trigger] head[i]).0 == on[j].0 && head[i].1.nanos
                        > now.nanos && on[j].1 == head[i].1.since(now).secs();
                assert(fs[i] == head[i]);
            } else {
                assert(fs[n] == fs.last());
            }
        }
        assert forall|i: int, j: int| 0 <= i < j < out.len() implies (#[trigger] out[i]).0 != (
        #[trigger] out[j]).0 by {
            assert(out[i] == on[i]);
            if j < on.len() {
                assert(out[j] == on[j]);
            } else {
                let k = choose|k: int|
                    0 <= k < head.len() && (#[trigger] head[k]).0 == on[i].0 && head[k].1.nanos
                        > now.nanos && on[i].1 == head[k].1.since(now).secs();
                assert(fs[k].0 != fs[n].0);
            }
        }
    }
}

} // verus!
