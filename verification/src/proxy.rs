//! What the proxy does with a tool call.
//!
//! `handle` looks at a call and says what to do: hand out an answer from the
//! cache, refuse, or forward the call to the backend. Once the backend has
//! replied, `settle` says what to do with the reply: keep it, hand it out, or
//! forward the call once more after a pause. The calls themselves are made
//! elsewhere; of equal calls that are to be kept only one goes out at a time.

use crate::batch;
use crate::batch::{SubCall, SubCallView};
use crate::cache;
use crate::cache::{Cache, EntryView};
use crate::clock::{Clock, Moment, Span};
use crate::config::CacheConfig;
use crate::dirty;
use crate::dirty::{DirtyEntry, DirtySet};
use crate::freeze;
use crate::freeze::FreezeController;
use crate::json;
use crate::json::{Json, JsonTree};
use crate::meta;
use crate::metrics;
use crate::metrics::Metrics;
use crate::policy::{Policy, PolicyView, ScopePolicy};
use crate::singleflight::{Flights, Shared, SingleFlight};
use crate::text;
use std::sync::Arc;
use vstd::hash_map::StringHashMap;
use vstd::prelude::*;

verus! {

/// The text of an answer, or why there is none.
pub type ProxyResult = Result<Arc<String>, ProxyError>;

/// Why a call has no answer.
#[derive(Debug)]
pub enum ProxyError {
    /// The backend could not be reached or reported an error.
    Backend(String),
    /// The proxy was used in a way it is not made for.
    Internal(String),
    /// The scope is frozen; the call may be repeated after some seconds.
    Frozen { scope: String, retry_after_seconds: u64 },
}

/// What an error says.
pub enum ErrorView {
    Backend(Seq<char>),
    Internal(Seq<char>),
    Frozen { scope: Seq<char>, retry_after_seconds: u64 },
}

impl ErrorView {
    /// The error as a message.
    pub open spec fn message(self) -> Seq<char> {
        match self {
            ErrorView::Backend(reason) => "ошибка обращения к бэкенду: "@ + reason,
            ErrorView::Internal(reason) => "внутренняя ошибка прокси: "@ + reason,
            ErrorView::Frozen { scope, retry_after_seconds } => "прокси заморожен (scope='"@ + scope
                + "', retry after "@ + text::decimal(retry_after_seconds as nat) + "s)"@,
        }
    }
}

impl View for ProxyError {
    type V = ErrorView;

    open spec fn view(&self) -> ErrorView {
        match self {
            ProxyError::Backend(reason) => ErrorView::Backend(reason@),
            ProxyError::Internal(reason) => ErrorView::Internal(reason@),
            ProxyError::Frozen { scope, retry_after_seconds } => ErrorView::Frozen {
                scope: scope@,
                retry_after_seconds: *retry_after_seconds,
            },
        }
    }
}

impl ProxyError {
    /// The error as a message.
    pub fn message(&self) -> (r: String)
        ensures
            r@ == self@.message(),
    {
        match self {
            ProxyError::Backend(reason) => {
                let mut out: String = "ошибка обращения к бэкенду: ".to_string();
                out.append(reason.as_str());
                out
            },
            ProxyError::Internal(reason) => {
                let mut out: String = "внутренняя ошибка прокси: ".to_string();
                out.append(reason.as_str());
                out
            },
            ProxyError::Frozen { scope, retry_after_seconds } => {
                let mut out: String = "прокси заморожен (scope='".to_string();
                out.append(scope.as_str());
                out.append("', retry after ");
                out.append(text::decimal_text(*retry_after_seconds).as_str());
                out.append("s)");
                out
            },
        }
    }
}

/// How answers built on changed files are checked before they are kept.
#[derive(Debug, Clone, Copy, PartialEq, Eq, Structural)]
pub struct RevalConfig {
    /// Whether they are checked at all.
    pub enabled: bool,
    /// How long a read waits for the index to catch up. With 0 it does not wait.
    pub max_wait: Span,
    /// The pause between two tries.
    pub retry_interval: Span,
}

impl Default for RevalConfig {
    fn default() -> (r: Self)
        ensures
            r == (RevalConfig {
                enabled: false,
                max_wait: Span::of_millis(2000),
                retry_interval: Span::of_millis(150),
            }),
    {
        RevalConfig {
            enabled: false,
            max_wait: Span::from_millis(2000),
            retry_interval: Span::from_millis(150),
        }
    }
}

impl RevalConfig {
    /// The checks that the settings ask for.
    pub open spec fn of(settings: CacheConfig) -> RevalConfig {
        RevalConfig {
            enabled: settings.lazy_revalidation_enabled,
            max_wait: Span::of_millis(settings.revalidation_max_wait_ms),
            retry_interval: Span::of_millis(settings.revalidation_retry_interval_ms),
        }
    }

    /// The checks that the settings ask for.
    pub fn from_settings(settings: &CacheConfig) -> (r: RevalConfig)
        ensures
            r == RevalConfig::of(*settings),
            r == (RevalConfig {
                enabled: settings.lazy_revalidation_enabled,
                max_wait: Span::of_millis(settings.revalidation_max_wait_ms),
                retry_interval: Span::of_millis(settings.revalidation_retry_interval_ms),
            }),
    {
        RevalConfig {
            enabled: settings.lazy_revalidation_enabled,
            max_wait: Span::from_millis(settings.revalidation_max_wait_ms),
            retry_interval: Span::from_millis(settings.revalidation_retry_interval_ms),
        }
    }
}

/// How a call goes to the backend and what becomes of the reply.
#[derive(Debug)]
pub enum Route {
    /// On its own; the reply is not kept.
    Direct,
    /// Once for all equal calls at a time; the reply is kept under a key.
    Keep { key: String, ttl: Span },
    /// Once for all equal calls at a time; the reply is kept under a key if the
    /// index has caught up, else the call is repeated until the deadline.
    Revalidate { key: String, ttl: Span, scope: String, deadline: Moment },
}

/// What a route says.
pub enum RouteView {
    Direct,
    Keep { key: Seq<char>, ttl: Span },
    Revalidate { key: Seq<char>, ttl: Span, scope: Seq<char>, deadline: Moment },
}

impl RouteView {
    /// The key by which equal calls are told, if they are to go out only once.
    pub open spec fn flight(self) -> Option<Seq<char>> {
        match self {
            RouteView::Direct => None,
            RouteView::Keep { key, .. } => Some(key),
            RouteView::Revalidate { key, .. } => Some(key),
        }
    }
}

impl View for Route {
    type V = RouteView;

    open spec fn view(&self) -> RouteView {
        match self {
            Route::Direct => RouteView::Direct,
            Route::Keep { key, ttl } => RouteView::Keep { key: key@, ttl: *ttl },
            Route::Revalidate { key, ttl, scope, deadline } => RouteView::Revalidate {
                key: key@,
                ttl: *ttl,
                scope: scope@,
                deadline: *deadline,
            },
        }
    }
}

impl Route {
    /// The key by which equal calls are told, if they are to go out only once.
    pub fn flight_key(&self) -> (r: Option<&str>)
        ensures
            match r {
                Some(name) => match self@ {
                    RouteView::Direct => false,
                    RouteView::Keep { key, .. } => name@ == key,
                    RouteView::Revalidate { key, .. } => name@ == key,
                },
                None => self@ is Direct,
            },
            match r {
                Some(name) => self@.flight() == Some(name@),
                None => self@.flight() is None,
            },
    {
        match self {
            Route::Direct => None,
            Route::Keep { key, .. } => Some(key.as_str()),
            Route::Revalidate { key, .. } => Some(key.as_str()),
        }
    }
}

/// What to do next with a call.
#[derive(Debug)]
pub enum Action {
    /// Hand out this answer.
    Reply(Arc<String>),
    /// Hand out this error.
    Refuse(ProxyError),
    /// Forward the call, then `settle` its reply.
    Forward(Route),
    /// Pause, forward the call once more, then `settle` its reply.
    Retry(Route, Span),
}

/// What an action says.
pub enum ActionView {
    Reply(Seq<char>),
    Refuse(ErrorView),
    Forward(RouteView),
    Retry(RouteView, Span),
}

impl View for Action {
    type V = ActionView;

    open spec fn view(&self) -> ActionView {
        match self {
            Action::Reply(payload) => ActionView::Reply(payload@),
            Action::Refuse(error) => ActionView::Refuse(error@),
            Action::Forward(route) => ActionView::Forward(route@),
            Action::Retry(route, pause) => ActionView::Retry(route@, *pause),
        }
    }
}

/// The reply of a backend: a text, or an error.
pub open spec fn reply_view(reply: Result<Shared<String>, String>) -> Result<Seq<char>, Seq<char>> {
    match reply {
        Ok(payload) => Ok(payload@),
        Err(reason) => Err(reason@),
    }
}

/// The proxy: the cache, the policy, the freezes, the marks and the counters.
pub struct CacheProxy {
    pub server_alias: String,
    /// The names of arguments that may hold the scope of a call. The first one
    /// that is there and is a text counts; without any the scope is empty.
    pub scope_args: Vec<String>,
    pub policy: Policy,
    pub cache: Cache,
    pub singleflight: SingleFlight,
    pub metrics: Metrics,
    pub freeze: FreezeController,
    pub dirty: DirtySet,
    pub reval: RevalConfig,
    /// The clock that the cache, the freezes and the marks share.
    pub clock: Clock,
}

/// What a proxy holds.
#[verifier::ext_equal]
pub struct ProxyView {
    pub server_alias: Seq<char>,
    pub scope_args: Seq<Seq<char>>,
    pub policy: PolicyView,
    pub entries: Map<Seq<char>, EntryView>,
    pub flights: Flights,
    pub metrics: Metrics,
    pub freezes: Seq<(Seq<char>, Moment)>,
    pub marks: Map<(Seq<char>, Seq<char>), DirtyEntry>,
    pub reval: RevalConfig,
}

impl View for CacheProxy {
    type V = ProxyView;

    open spec fn view(&self) -> ProxyView {
        ProxyView {
            server_alias: self.server_alias@,
            scope_args: text::texts(self.scope_args@),
            policy: self.policy@,
            entries: self.cache@,
            flights: self.singleflight@,
            metrics: self.metrics,
            freezes: self.freeze@,
            marks: self.dirty@,
            reval: self.reval,
        }
    }
}

/// The scope of a call: the first of some arguments that is there and is a text.
pub open spec fn scope_of(names: Seq<Seq<char>>, args: JsonTree) -> Seq<char>
    decreases names.len(),
{
    if names.len() == 0 {
        Seq::empty()
    } else {
        match args.member(names[0]) {
            Some(JsonTree::Text(scope)) => scope,
            _ => scope_of(names.drop_first(), args),
        }
    }
}

/// A number of seconds that is never zero.
pub open spec fn at_least_one(secs: u64) -> u64 {
    if secs < 1 {
        1
    } else {
        secs
    }
}

/// Whether a call goes past the cache: its scope or its tool is not cached, or
/// it asks for it.
pub open spec fn bypasses(v: ProxyView, tool: Seq<char>, args: JsonTree, bypass: bool) -> bool {
    let scope = scope_of(v.scope_args, args);
    ||| scope.len() > 0 && !v.policy.scope_cacheable(scope)
    ||| v.policy.ttl(tool) is None
    ||| bypass
}

/// Whether an entry may be handed out: it is live, and none of the files it was
/// built on is marked.
pub open spec fn clean_hit(v: ProxyView, key: Seq<char>, scope: Seq<char>, now: Moment) -> bool {
    &&& cache::live(v.entries, key, now)
    &&& v.reval.enabled ==> !dirty::some_marked(v.marks, scope, v.entries[key].files)
}

/// What a call that is not refused and does not go past the cache leads to.
pub open spec fn lookup_step(
    v: ProxyView,
    key: Seq<char>,
    ttl: Span,
    scope: Seq<char>,
    now: Moment,
) -> (ProxyView, ActionView) {
    let entries = cache::after_lookup(v.entries, key, now);
    if clean_hit(v, key, scope, now) {
        (
            ProxyView {
                entries,
                metrics: Metrics {
                    cache_hits: metrics::bump(v.metrics.cache_hits),
                    ..v.metrics
                },
                ..v
            },
            ActionView::Reply(v.entries[key].payload),
        )
    } else {
        (
            ProxyView {
                entries,
                metrics: Metrics {
                    cache_misses: metrics::bump(v.metrics.cache_misses),
                    ..v.metrics
                },
                ..v
            },
            ActionView::Forward(
                if v.reval.enabled {
                    RouteView::Revalidate {
                        key,
                        ttl,
                        scope,
                        deadline: now.after(v.reval.max_wait),
                    }
                } else {
                    RouteView::Keep { key, ttl }
                },
            ),
        )
    }
}

/// What a call leads to.
pub open spec fn handle_step(
    v: ProxyView,
    tool: Seq<char>,
    args: JsonTree,
    bypass: bool,
    now: Moment,
) -> (ProxyView, ActionView) {
    let scope = scope_of(v.scope_args, args);
    match freeze::rest(v.freezes, scope, now) {
        Some(left) => (
            v,
            ActionView::Refuse(
                ErrorView::Frozen { scope, retry_after_seconds: at_least_one(left.secs()) },
            ),
        ),
        None => if bypasses(v, tool, args, bypass) {
            (
                ProxyView {
                    metrics: Metrics { bypass: metrics::bump(v.metrics.bypass), ..v.metrics },
                    ..v
                },
                ActionView::Forward(RouteView::Direct),
            )
        } else {
            lookup_step(
                v,
                cache::cache_key(v.server_alias, scope, tool, args),
                Span::of_secs(at_least_one(v.policy.ttl(tool)->0)),
                scope,
                now,
            )
        },
    }
}

/// What a call for many names is answered at once: it is refused as a whole
/// where its scope is frozen, whatever the list holds, else it is split.
pub open spec fn open_batch_step(
    v: ProxyView,
    tool: Seq<char>,
    args: JsonTree,
    now: Moment,
) -> Result<Seq<SubCallView>, ErrorView> {
    let scope = scope_of(v.scope_args, args);
    match freeze::rest(v.freezes, scope, now) {
        Some(left) => Err(
            ErrorView::Frozen { scope, retry_after_seconds: at_least_one(left.secs()) },
        ),
        None => batch::split_of(tool, args),
    }
}

/// Whether the index has caught up with every marked file that an answer was
/// built on. A file without a time in the answer has not been caught up with.
pub open spec fn caught_up(
    marks: Map<(Seq<char>, Seq<char>), DirtyEntry>,
    scope: Seq<char>,
    files: Seq<Seq<char>>,
    mtimes: Map<Seq<char>, i64>,
) -> bool {
    forall|i: int|
        0 <= i < files.len() && marks.contains_key((scope, #[trigger] files[i])) ==> {
            &&& mtimes.contains_key(files[i])
            &&& mtimes[files[i]] >= marks[(scope, files[i])].observed
        }
}

/// The marks without those on some files of a scope.
pub open spec fn without_marks(
    marks: Map<(Seq<char>, Seq<char>), DirtyEntry>,
    scope: Seq<char>,
    files: Seq<Seq<char>>,
) -> Map<(Seq<char>, Seq<char>), DirtyEntry> {
    Map::new(
        |k: (Seq<char>, Seq<char>)|
            marks.contains_key(k) && !(k.0 == scope && files.contains(k.1)),
        |k: (Seq<char>, Seq<char>)| marks[k],
    )
}

/// The proxy with an answer kept under a key.
pub open spec fn kept(
    v: ProxyView,
    key: Seq<char>,
    ttl: Span,
    payload: Seq<char>,
    now: Moment,
) -> ProxyView {
    let entry = cache::fresh_entry(
        meta::stripped(payload),
        ttl,
        meta::dependent_files(payload),
        now,
    );
    let entries = v.entries.insert(key, entry);
    ProxyView {
        entries,
        metrics: Metrics { cache_size: entries.dom().len() as usize, ..v.metrics },
        ..v
    }
}

/// What the reply to a forwarded call leads to.
pub open spec fn settle_step(
    v: ProxyView,
    route: RouteView,
    reply: Result<Seq<char>, Seq<char>>,
    now: Moment,
) -> (ProxyView, ActionView) {
    match reply {
        Err(reason) => (
            ProxyView {
                metrics: Metrics {
                    backend_errors: metrics::bump(v.metrics.backend_errors),
                    ..v.metrics
                },
                ..v
            },
            ActionView::Refuse(ErrorView::Backend(reason)),
        ),
        Ok(payload) => match route {
            RouteView::Direct => (v, ActionView::Reply(meta::stripped(payload))),
            RouteView::Keep { key, ttl } => (
                kept(v, key, ttl, payload, now),
                ActionView::Reply(meta::stripped(payload)),
            ),
            RouteView::Revalidate { key, ttl, scope, deadline } => {
                let files = meta::dependent_files(payload);
                if caught_up(v.marks, scope, files, meta::file_mtimes(payload)) {
                    (
                        ProxyView {
                            marks: without_marks(v.marks, scope, files),
                            ..kept(v, key, ttl, payload, now)
                        },
                        ActionView::Reply(meta::stripped(payload)),
                    )
                } else if now.nanos >= deadline.nanos {
                    (v, ActionView::Reply(meta::stripped(payload)))
                } else {
                    (v, ActionView::Retry(route, v.reval.retry_interval))
                }
            },
        },
    }
}

impl CacheProxy {
    /// The parts are sound and share one clock.
    pub open spec fn wf(&self) -> bool {
        &&& self.cache.wf()
        &&& self.freeze.wf()
        &&& self.dirty.wf()
        &&& self.cache.clock() == self.clock
        &&& self.freeze.clock() == self.clock
        &&& self.dirty.clock() == self.clock
    }

    /// A proxy made of its parts. The cache, the freezes and the marks read one clock.
    pub fn new(
        server_alias: &str,
        scope_args: Vec<String>,
        policy: Policy,
        cache: Cache,
        singleflight: SingleFlight,
        metrics: Metrics,
        freeze: FreezeController,
        dirty: DirtySet,
        reval: RevalConfig,
    ) -> (r: CacheProxy)
        requires
            cache.wf(),
            freeze.wf(),
            dirty.wf(),
            freeze.clock() == cache.clock(),
            dirty.clock() == cache.clock(),
        ensures
            r.wf(),
            r@ == (ProxyView {
                server_alias: server_alias@,
                scope_args: text::texts(scope_args@),
                policy: policy@,
                entries: cache@,
                flights: singleflight@,
                metrics,
                freezes: freeze@,
                marks: dirty@,
                reval,
            }),
    {
        let clock = cache.time_source();
        CacheProxy {
            server_alias: server_alias.to_string(),
            scope_args,
            policy,
            cache,
            singleflight,
            metrics,
            freeze,
            dirty,
            reval,
            clock,
        }
    }

    /// The scope of a call.
    pub fn extract_scope(&self, args: &Json) -> (r: String)
        ensures
            r@ == scope_of(self@.scope_args, args.tree()),
    {
        let ghost names = self@.scope_args;
        let mut i: usize = 0;
        assert(names.skip(0) =~= names);
        while i < self.scope_args.len()
            invariant
                i <= self.scope_args@.len(),
                names == text::texts(self.scope_args@),
                scope_of(names, args.tree()) == scope_of(names.skip(i as int), args.tree()),
            decreases self.scope_args@.len() - i,
        {
            assert(names.skip(i as int)[0] == self.scope_args@[i as int]@);
            assert(names.skip(i as int).drop_first() =~= names.skip(i + 1));
            match args.get(self.scope_args[i].as_str()) {
                Some(value) => match value.as_str() {
                    Some(scope) => {
                        return scope.to_string();
                    },
                    None => {},
                },
                None => {},
            }
            i = i + 1;
        }
        String::new()
    }

    /// Look at a call of a tool and say what to do with it. With `bypass` the
    /// client asks to go past the cache.
    pub fn handle(&mut self, tool: &str, args: &Json, bypass: bool) -> (r: Action)
        requires
            old(self).wf(),
        ensures
            final(self).wf(),
            final(self).clock == old(self).clock,
            exists|now: Moment|
                now.is_reading() && old(self).clock.reports(now) && (final(self)@, r@) == #[trigger] handle_step(
                    old(self)@,
                    tool@,
                    args.tree(),
                    bypass,
                    now,
                ),
    {
        let now = self.clock.now();
        self.handle_at(tool, args, bypass, now)
    }

    /// Look at a call of a tool that comes in at `now` and say what to do with it.
    pub fn handle_at(&mut self, tool: &str, args: &Json, bypass: bool, now: Moment) -> (r: Action)
        requires
            old(self).wf(),
        ensures
            final(self).wf(),
            final(self).clock == old(self).clock,
            (final(self)@, r@) == handle_step(old(self)@, tool@, args.tree(), bypass, now),
    {
        let scope = self.extract_scope(args);
        match self.refusal(scope.as_str(), now) {
            Some(error) => {
                return Action::Refuse(error);
            },
            None => {},
        }
        let scope_off: bool = !scope.as_str().is_empty() && !self.policy.is_scope_cacheable(
            scope.as_str(),
        );
        let ttl_secs: u64 = match self.policy.ttl_for(tool) {
            Some(secs) => if scope_off || bypass {
                self.metrics.record_bypass();
                return Action::Forward(Route::Direct);
            } else if secs < 1 {
                1
            } else {
                secs
            },
            None => {
                self.metrics.record_bypass();
                return Action::Forward(Route::Direct);
            },
        };
        let key = Cache::key_for(self.server_alias.as_str(), scope.as_str(), tool, args);
        self.look_up(key, Span::from_secs(ttl_secs), scope, now)
    }

    /// The error for a call in a scope that is frozen at `now`.
    fn refusal(&self, scope: &str, now: Moment) -> (r: Option<ProxyError>)
        requires
            self.wf(),
        ensures
            match freeze::rest(self@.freezes, scope@, now) {
                Some(left) => r matches Some(error) && error@ == (ErrorView::Frozen {
                    scope: scope@,
                    retry_after_seconds: at_least_one(left.secs()),
                }),
                None => r is None,
            },
    {
        match self.freeze.is_frozen_at(scope, now) {
            Some(left) => {
                let secs: u64 = left.as_secs();
                let wait: u64 = if secs < 1 {
                    1
                } else {
                    secs
                };
                Some(ProxyError::Frozen { scope: scope.to_string(), retry_after_seconds: wait })
            },
            None => None,
        }
    }

    /// Split a call for many names into calls for one name each, or refuse it as
    /// a whole where its scope is frozen.
    pub fn open_batch(&self, tool: &str, args: &Json) -> (r: Result<Vec<SubCall>, ProxyError>)
        requires
            self.wf(),
        ensures
            exists|now: Moment|
                now.is_reading() && self.clock.reports(now) && batch::split_view(r) == #[trigger] open_batch_step(
                    self@,
                    tool@,
                    args.tree(),
                    now,
                ),
    {
        let now = self.clock.now();
        self.open_batch_at(tool, args, now)
    }

    /// Split a call for many names that comes in at `now`, or refuse it as a whole
    /// where its scope is frozen.
    pub fn open_batch_at(&self, tool: &str, args: &Json, now: Moment) -> (r: Result<
        Vec<SubCall>,
        ProxyError,
    >)
        requires
            self.wf(),
        ensures
            batch::split_view(r) == open_batch_step(self@, tool@, args.tree(), now),
    {
        let scope = self.extract_scope(args);
        match self.refusal(scope.as_str(), now) {
            Some(error) => Err(error),
            None => batch::split_batch(tool, args),
        }
    }

    /// Look a key up and say what to do with the call.
    fn look_up(&mut self, key: String, ttl: Span, scope: String, now: Moment) -> (r: Action)
        requires
            old(self).wf(),
        ensures
            final(self).wf(),
            final(self).clock == old(self).clock,
            (final(self)@, r@) == lookup_step(old(self)@, key@, ttl, scope@, now),
    {
        match self.cache.get_with_deps_at(key.as_str(), now) {
            Some((payload, files)) => {
                if !self.reval.enabled || !self.dirty.any_dirty(scope.as_str(), files.as_slice()) {
                    self.metrics.record_hit();
                    return Action::Reply(payload);
                }
            },
            None => {},
        }
        self.metrics.record_miss();
        if self.reval.enabled {
            let deadline = now.plus(self.reval.max_wait);
            Action::Forward(Route::Revalidate { key, ttl, scope, deadline })
        } else {
            Action::Forward(Route::Keep { key, ttl })
        }
    }

    /// Say what to do with the reply to a forwarded call.
    pub fn settle(&mut self, route: Route, reply: Result<Shared<String>, String>) -> (r: Action)
        requires
            old(self).wf(),
        ensures
            final(self).wf(),
            final(self).clock == old(self).clock,
            exists|now: Moment|
                now.is_reading() && old(self).clock.reports(now) && (final(self)@, r@) == #[trigger] settle_step(
                    old(self)@,
                    route@,
                    reply_view(reply),
                    now,
                ),
    {
        let now = self.clock.now();
        self.settle_at(route, reply, now)
    }

    /// Say what to do with the reply to a forwarded call that comes in at `now`.
    pub fn settle_at(&mut self, route: Route, reply: Result<Shared<String>, String>, now: Moment) -> (r:
        Action)
        requires
            old(self).wf(),
        ensures
            final(self).wf(),
            final(self).clock == old(self).clock,
            (final(self)@, r@) == settle_step(old(self)@, route@, reply_view(reply), now),
    {
        let payload = match reply {
            Ok(payload) => payload,
            Err(reason) => {
                self.metrics.record_backend_error();
                return Action::Refuse(ProxyError::Backend(reason));
            },
        };
        match route {
            Route::Direct => Action::Reply(Arc::new(meta::strip_meta(payload.as_str()))),
            Route::Keep { key, ttl } => self.keep(key, ttl, payload.as_str(), now),
            Route::Revalidate { key, ttl, scope, deadline } => {
                let files = meta::extract_dependent_files(payload.as_str());
                let mtimes = meta::extract_file_mtimes(payload.as_str());
                if self.index_caught_up(scope.as_str(), &files, &mtimes) {
                    self.clear_marks(scope.as_str(), &files, &mtimes);
                    self.keep(key, ttl, payload.as_str(), now)
                } else if now.nanos >= deadline.nanos {
                    Action::Reply(Arc::new(meta::strip_meta(payload.as_str())))
                } else {
                    let pause = self.reval.retry_interval;
                    Action::Retry(Route::Revalidate { key, ttl, scope, deadline }, pause)
                }
            },
        }
    }

    /// Keep an answer under a key and hand it out.
    fn keep(&mut self, key: String, ttl: Span, payload: &str, now: Moment) -> (r: Action)
        requires
            old(self).wf(),
        ensures
            final(self).wf(),
            final(self).clock == old(self).clock,
            final(self)@ == kept(old(self)@, key@, ttl, payload@, now),
            r@ == ActionView::Reply(meta::stripped(payload@)),
    {
        let files = meta::extract_dependent_files(payload);
        let clean = Arc::new(meta::strip_meta(payload));
        self.cache.insert_with_deps_at(key, cache::share(&clean), ttl, files, now);
        self.metrics.update_cache_size(self.cache.len());
        Action::Reply(clean)
    }

    /// Whether the index has caught up with every marked file.
    fn index_caught_up(
        &self,
        scope: &str,
        files: &Vec<String>,
        mtimes: &StringHashMap<i64>,
    ) -> (r: bool)
        ensures
            r == caught_up(self@.marks, scope@, text::texts(files@), mtimes@),
    {
        let ghost all = text::texts(files@);
        let mut i: usize = 0;
        while i < files.len()
            invariant
                i <= files@.len(),
                all == text::texts(files@),
                caught_up(self@.marks, scope@, all.take(i as int), mtimes@),
            decreases files@.len() - i,
        {
            match self.dirty.observed(scope, files[i].as_str()) {
                Some(observed) => {
                    let fresh: bool = match mtimes.get(files[i].as_str()) {
                        Some(mtime) => *mtime >= observed,
                        None => false,
                    };
                    if !fresh {
                        assert(self@.marks.contains_key((scope@, all[i as int])));
                        return false;
                    }
                },
                None => {},
            }
            assert(caught_up(self@.marks, scope@, all.take(i + 1), mtimes@)) by {
                assert forall|j: int|
                    0 <= j < i + 1 && self@.marks.contains_key(
                        (scope@, #[trigger] all.take(i + 1)[j]),
                    ) implies {
                    &&& mtimes@.contains_key(all.take(i + 1)[j])
                    &&& mtimes@[all.take(i + 1)[j]] >= self@.marks[(
                        scope@,
                        all.take(i + 1)[j],
                    )].observed
                } by {
                    if j < i {
                        assert(all.take(i as int)[j] == all.take(i + 1)[j]);
                    }
                }
            }
            i = i + 1;
        }
        assert(all.take(files@.len() as int) =~= all);
        true
    }

    /// Take the marks off files that the index has caught up with.
    fn clear_marks(&mut self, scope: &str, files: &Vec<String>, mtimes: &StringHashMap<i64>)
        requires
            old(self).wf(),
            caught_up(old(self)@.marks, scope@, text::texts(files@), mtimes@),
        ensures
            final(self).wf(),
            final(self).clock == old(self).clock,
            final(self)@ == (ProxyView {
                marks: without_marks(old(self)@.marks, scope@, text::texts(files@)),
                ..old(self)@
            }),
    {
        let ghost all = text::texts(files@);
        let ghost before = self@.marks;
        let mut i: usize = 0;
        assert(self@.marks =~= without_marks(before, scope@, all.take(0)));
        while i < files.len()
            invariant
                self.wf(),
                self.clock == old(self).clock,
                i <= files@.len(),
                all == text::texts(files@),
                before == old(self)@.marks,
                caught_up(before, scope@, all, mtimes@),
                self@ == (ProxyView {
                    marks: without_marks(before, scope@, all.take(i as int)),
                    ..old(self)@
                }),
            decreases files@.len() - i,
        {
            let ghost prev = self@.marks;
            let ghost path = all[i as int];
            match mtimes.get(files[i].as_str()) {
                Some(mtime) => {
                    self.dirty.clear_if_caught_up(scope, files[i].as_str(), *mtime);
                },
                None => {},
            }
            proof {
                assert(all.take(i + 1) =~= all.take(i as int).push(path));
                if prev.contains_key((scope@, path)) {
                    assert(before.contains_key((scope@, path)));
                    assert(mtimes@[path] >= before[(scope@, path)].observed);
                }
                let now = without_marks(before, scope@, all.take(i + 1));
                assert forall|k: (Seq<char>, Seq<char>)|
                    self@.marks.contains_key(k) == now.contains_key(k) by {
                    text::lemma_push_contains(all.take(i as int), path, k.1);
                }
                assert(self@.marks =~= now);
            }
            i = i + 1;
        }
        assert(all.take(files@.len() as int) =~= all);
    }
}

/// A call in a frozen scope is refused, whatever its tool and whether or not it
/// asks to go past the cache. The proxy does not change, and nothing is forwarded.
pub proof fn law_frozen_scope_is_refused(
    v: ProxyView,
    tool: Seq<char>,
    args: JsonTree,
    bypass: bool,
    now: Moment,
)
    requires
        freeze::rest(v.freezes, scope_of(v.scope_args, args), now) is Some,
    ensures
        handle_step(v, tool, args, bypass, now).0 == v,
        handle_step(v, tool, args, bypass, now).1 matches ActionView::Refuse(
            ErrorView::Frozen { scope, retry_after_seconds },
        ) && scope == scope_of(v.scope_args, args) && retry_after_seconds >= 1,
{
}

/// A call for many names in a frozen scope is refused as a whole, whatever its
/// list holds, with the error that any single call there gets.
pub proof fn law_frozen_batch_is_refused(
    v: ProxyView,
    tool: Seq<char>,
    args: JsonTree,
    single_tool: Seq<char>,
    single_args: JsonTree,
    bypass: bool,
    now: Moment,
)
    requires
        freeze::rest(v.freezes, scope_of(v.scope_args, args), now) is Some,
        scope_of(v.scope_args, single_args) == scope_of(v.scope_args, args),
    ensures
        open_batch_step(v, tool, args, now) matches Err(error) && error is Frozen && handle_step(
            v,
            single_tool,
            single_args,
            bypass,
            now,
        ).1 == ActionView::Refuse(error),
{
}

/// Where a scope is not frozen, a call in it is never refused by the proxy itself.
pub proof fn law_thawed_scope_is_served(
    v: ProxyView,
    tool: Seq<char>,
    args: JsonTree,
    bypass: bool,
    now: Moment,
)
    requires
        freeze::rest(v.freezes, scope_of(v.scope_args, args), now) is None,
    ensures
        !(handle_step(v, tool, args, bypass, now).1 is Refuse),
        open_batch_step(v, tool, args, now) == batch::split_of(tool, args),
{
}

/// A call that was forwarded is not refused as frozen any more, whatever comes
/// of it.
pub proof fn law_forwarded_call_is_never_frozen(
    v: ProxyView,
    route: RouteView,
    reply: Result<Seq<char>, Seq<char>>,
    now: Moment,
)
    ensures
        settle_step(v, route, reply, now).1 matches ActionView::Refuse(error) ==> error is Backend,
{
}

/// The order in which members stand in the arguments of a call plays no part in
/// what becomes of the call.
pub proof fn law_member_order_plays_no_part(
    v: ProxyView,
    tool: Seq<char>,
    args: JsonTree,
    reordered: JsonTree,
    bypass: bool,
    now: Moment,
)
    requires
        json::same_up_to_order(args, reordered),
    ensures
        scope_of(v.scope_args, args) == scope_of(v.scope_args, reordered),
        handle_step(v, tool, args, bypass, now) == handle_step(v, tool, reordered, bypass, now),
{
    lemma_same_scope(v.scope_args, args, reordered);
    cache::law_key_ignores_member_order(
        v.server_alias,
        scope_of(v.scope_args, args),
        tool,
        args,
        reordered,
    );
}

/// The order of members plays no part in the scope of a call.
proof fn lemma_same_scope(names: Seq<Seq<char>>, args: JsonTree, reordered: JsonTree)
    requires
        json::same_up_to_order(args, reordered),
    ensures
        scope_of(names, args) == scope_of(names, reordered),
    decreases names.len(),
{
    if names.len() > 0 {
        match (args, reordered) {
            (JsonTree::Object(x), JsonTree::Object(y)) => {
                json::lemma_last_index(x, names[0]);
                json::lemma_last_index(y, names[0]);
                let i = json::last_index(x, names[0]);
                let j = json::last_index(y, names[0]);
                if i >= 0 {
                    assert(json::has_member(y, x[i].0));
                    assert(json::same_up_to_order(x[i].1, y[j].1));
                } else if j >= 0 {
                    assert(json::has_member(x, y[j].0));
                }
            },
            _ => {},
        }
        lemma_same_scope(names.drop_first(), args, reordered);
    }
}

/// A call that goes past the cache is forwarded on its own, and neither the
/// call nor its reply changes what is kept.
pub proof fn law_bypass_keeps_nothing(
    v: ProxyView,
    tool: Seq<char>,
    args: JsonTree,
    bypass: bool,
    now: Moment,
    reply: Result<Seq<char>, Seq<char>>,
    later: Moment,
)
    requires
        freeze::rest(v.freezes, scope_of(v.scope_args, args), now) is None,
        bypasses(v, tool, args, bypass),
    ensures
        handle_step(v, tool, args, bypass, now).1 == ActionView::Forward(RouteView::Direct),
        handle_step(v, tool, args, bypass, now).0.entries == v.entries,
        settle_step(v, RouteView::Direct, reply, later).0.entries == v.entries,
        settle_step(v, RouteView::Direct, reply, later).0.marks == v.marks,
        !(settle_step(v, RouteView::Direct, reply, later).1 is Retry),
{
}

/// Whether the reply to a forwarded call is kept.
pub open spec fn is_kept(v: ProxyView, route: RouteView, payload: Seq<char>) -> bool {
    match route {
        RouteView::Direct => false,
        RouteView::Keep { .. } => true,
        RouteView::Revalidate { scope, .. } => caught_up(
            v.marks,
            scope,
            meta::dependent_files(payload),
            meta::file_mtimes(payload),
        ),
    }
}

/// An answer that was kept is handed out to the next equal call without a word
/// to the backend, until its time to live is over.
pub proof fn law_second_call_is_a_hit(
    v: ProxyView,
    tool: Seq<char>,
    args: JsonTree,
    first: Moment,
    payload: Seq<char>,
    replied: Moment,
    second: Moment,
)
    requires
        handle_step(v, tool, args, false, first).1 matches ActionView::Forward(route) && is_kept(
            v,
            route,
            payload,
        ),
        freeze::rest(v.freezes, scope_of(v.scope_args, args), second) is None,
        second.nanos < replied.after(Span::of_secs(at_least_one(v.policy.ttl(tool)->0))).nanos,
    ensures
        ({
            let (asked, action) = handle_step(v, tool, args, false, first);
            let (answered, outcome) = settle_step(
                asked,
                action->Forward_0,
                Ok(payload),
                replied,
            );
            &&& outcome == ActionView::Reply(meta::stripped(payload))
            &&& handle_step(answered, tool, args, false, second).1 == outcome
            &&& handle_step(answered, tool, args, false, second).0 == (ProxyView {
                metrics: Metrics {
                    cache_hits: metrics::bump(answered.metrics.cache_hits),
                    ..answered.metrics
                },
                ..answered
            })
        }),
{
    let scope = scope_of(v.scope_args, args);
    let key = cache::cache_key(v.server_alias, scope, tool, args);
    let (asked, action) = handle_step(v, tool, args, false, first);
    let (answered, outcome) = settle_step(asked, action->Forward_0, Ok(payload), replied);
    let files = meta::dependent_files(payload);
    assert(answered.entries[key].files == files);
    if v.reval.enabled {
        assert(answered.marks == without_marks(asked.marks, scope, files));
        if dirty::some_marked(answered.marks, scope, files) {
            let i = choose|i: int|
                0 <= i < files.len() && answered.marks.contains_key((scope, #[trigger] files[i]));
            assert(files.contains(files[i]));
        }
    }
}

/// With checks on, an entry built on a marked file is not handed out: the call
/// is forwarded to be checked.
pub proof fn law_marked_entry_is_not_handed_out(
    v: ProxyView,
    tool: Seq<char>,
    args: JsonTree,
    bypass: bool,
    now: Moment,
)
    requires
        v.reval.enabled,
        ({
            let scope = scope_of(v.scope_args, args);
            let key = cache::cache_key(v.server_alias, scope, tool, args);
            v.entries.contains_key(key) && dirty::some_marked(
                v.marks,
                scope,
                v.entries[key].files,
            )
        }),
    ensures
        !(handle_step(v, tool, args, bypass, now).1 is Reply),
{
}

/// With checks on, a reply is kept and the marks on its files go only if the
/// index has caught up with all of them. Else nothing changes, and the reply is
/// handed out only once the deadline has passed.
pub proof fn law_stale_reply_is_not_kept(
    v: ProxyView,
    key: Seq<char>,
    ttl: Span,
    scope: Seq<char>,
    deadline: Moment,
    payload: Seq<char>,
    now: Moment,
)
    requires
        !caught_up(
            v.marks,
            scope,
            meta::dependent_files(payload),
            meta::file_mtimes(payload),
        ),
    ensures
        ({
            let route = RouteView::Revalidate { key, ttl, scope, deadline };
            let (after, action) = settle_step(v, route, Ok(payload), now);
            &&& after == v
            &&& action == if now.nanos >= deadline.nanos {
                ActionView::Reply(meta::stripped(payload))
            } else {
                ActionView::Retry(route, v.reval.retry_interval)
            }
        }),
{
}

/// A mark goes only when the index reports, for its file, a time no smaller than
/// the observed one; marks on other files and in other scopes stay.
pub proof fn law_mark_goes_only_when_caught_up(
    v: ProxyView,
    route: RouteView,
    reply: Result<Seq<char>, Seq<char>>,
    now: Moment,
    scope: Seq<char>,
    path: Seq<char>,
)
    requires
        v.marks.contains_key((scope, path)),
        !settle_step(v, route, reply, now).0.marks.contains_key((scope, path)),
    ensures
        reply is Ok,
        route matches RouteView::Revalidate { scope: s, .. } && s == scope,
        meta::dependent_files(reply->Ok_0).contains(path),
        meta::file_mtimes(reply->Ok_0).contains_key(path),
        meta::file_mtimes(reply->Ok_0)[path] >= v.marks[(scope, path)].observed,
{
    let files = meta::dependent_files(reply->Ok_0);
    let i = choose|i: int| 0 <= i < files.len() && files[i] == path;
    assert(v.marks.contains_key((scope, files[i])));
}

/// A failed call is handed out as an error and changes nothing but its counter.
pub proof fn law_failure_keeps_nothing(
    v: ProxyView,
    route: RouteView,
    reason: Seq<char>,
    now: Moment,
)
    ensures
        settle_step(v, route, Err(reason), now).1 == ActionView::Refuse(
            ErrorView::Backend(reason),
        ),
        settle_step(v, route, Err(reason), now).0 == (ProxyView {
            metrics: Metrics {
                backend_errors: metrics::bump(v.metrics.backend_errors),
                ..v.metrics
            },
            ..v
        }),
{
}

/// Without time to wait a call is forwarded once and never repeated.
pub proof fn law_no_wait_means_one_forward(
    v: ProxyView,
    tool: Seq<char>,
    args: JsonTree,
    bypass: bool,
    now: Moment,
    after: ProxyView,
    reply: Result<Seq<char>, Seq<char>>,
    later: Moment,
)
    requires
        v.reval.max_wait.nanos == 0,
        now.nanos <= later.nanos,
    ensures
        handle_step(v, tool, args, bypass, now).1 matches ActionView::Forward(route) ==> !(
        settle_step(after, route, reply, later).1 is Retry),
{
}

/// A freeze of a scope refuses its calls until it ends.
pub proof fn law_freeze_refuses_until_it_ends(
    v: ProxyView,
    scope: Seq<char>,
    end: Moment,
    tool: Seq<char>,
    args: JsonTree,
    bypass: bool,
    now: Moment,
)
    requires
        freeze::distinct(v.freezes),
        scope_of(v.scope_args, args) == scope || scope.len() == 0,
        now.nanos < end.nanos,
    ensures
        ({
            let frozen = ProxyView {
                freezes: freeze::with_freeze(v.freezes, scope, end),
                ..v
            };
            handle_step(frozen, tool, args, bypass, now).1 is Refuse
        }),
{
    freeze::law_freeze_keeps_the_later_end(v.freezes, scope, end, Seq::empty());
    if scope.len() == 0 {
        assert(scope =~= Seq::empty());
    }
}

/// Once the freeze of a scope is lifted and all scopes are not frozen, its calls
/// are served again.
pub proof fn law_thaw_restores_service(
    v: ProxyView,
    tool: Seq<char>,
    args: JsonTree,
    bypass: bool,
    now: Moment,
)
    requires
        freeze::distinct(v.freezes),
        freeze::own_rest(v.freezes, Seq::empty(), now) is None,
    ensures
        ({
            let scope = scope_of(v.scope_args, args);
            let thawed = ProxyView { freezes: freeze::without_freeze(v.freezes, scope), ..v };
            !(handle_step(thawed, tool, args, bypass, now).1 is Refuse)
        }),
{
    let scope = scope_of(v.scope_args, args);
    freeze::law_thaw_lifts_one_scope(v.freezes, scope, Seq::empty());
}

/// A change of a file that is reported is seen at once: an answer built on the
/// file is handed out no more.
pub proof fn law_reported_change_is_seen_at_once(
    v: ProxyView,
    path: Seq<char>,
    observed: i64,
    reported: Moment,
    tool: Seq<char>,
    args: JsonTree,
    bypass: bool,
    now: Moment,
)
    requires
        v.reval.enabled,
        ({
            let scope = scope_of(v.scope_args, args);
            let key = cache::cache_key(v.server_alias, scope, tool, args);
            v.entries.contains_key(key) && v.entries[key].files.contains(path)
        }),
    ensures
        ({
            let scope = scope_of(v.scope_args, args);
            let marked = ProxyView {
                marks: dirty::marked(v.marks, scope, path, observed, reported),
                ..v
            };
            !(handle_step(marked, tool, args, bypass, now).1 is Reply)
        }),
{
    let scope = scope_of(v.scope_args, args);
    let key = cache::cache_key(v.server_alias, scope, tool, args);
    let files = v.entries[key].files;
    let marks = dirty::marked(v.marks, scope, path, observed, reported);
    let i = choose|i: int| 0 <= i < files.len() && files[i] == path;
    assert(marks.contains_key((scope, files[i])));
}

/// After a change of a file was committed, an answer built on it is gone, and
/// the next call for it is forwarded.
pub proof fn law_changed_file_forces_a_forward(
    v: ProxyView,
    paths: Seq<Seq<char>>,
    tool: Seq<char>,
    args: JsonTree,
    bypass: bool,
    now: Moment,
)
    requires
        ({
            let key = cache::cache_key(
                v.server_alias,
                scope_of(v.scope_args, args),
                tool,
                args,
            );
            v.entries.contains_key(key) && v.entries[key].touches(paths)
        }),
    ensures
        ({
            let left = ProxyView { entries: cache::untouched(v.entries, paths), ..v };
            !(handle_step(left, tool, args, bypass, now).1 is Reply)
        }),
{
}

/// An answer kept for one scope is not handed out in another, as long as no
/// scope contains `|`.
pub proof fn law_scopes_do_not_share_answers(
    v: ProxyView,
    scope: Seq<char>,
    other: Seq<char>,
    tool: Seq<char>,
    args: JsonTree,
    other_tool: Seq<char>,
    other_args: JsonTree,
    ttl: Span,
    payload: Seq<char>,
    now: Moment,
)
    requires
        scope != other,
        !scope.contains('|'),
        !other.contains('|'),
    ensures
        ({
            let key = cache::cache_key(v.server_alias, scope, tool, args);
            let other_key = cache::cache_key(v.server_alias, other, other_tool, other_args);
            let after = kept(v, key, ttl, payload, now).entries;
            &&& after.contains_key(other_key) == v.entries.contains_key(other_key)
            &&& v.entries.contains_key(other_key) ==> after[other_key] == v.entries[other_key]
        }),
{
    let key = cache::cache_key(v.server_alias, scope, tool, args);
    cache::law_key_starts_with_scope_prefix(v.server_alias, scope, tool, args);
    cache::law_scope_prefixes_are_apart(v.server_alias, scope, other, other_tool, other_args);
}

/// A rule for one scope plays no part in the calls of another.
pub proof fn law_scope_rule_is_its_own(
    v: ProxyView,
    scope: Seq<char>,
    rule: ScopePolicy,
    tool: Seq<char>,
    args: JsonTree,
    bypass: bool,
    now: Moment,
)
    requires
        scope_of(v.scope_args, args) != scope,
    ensures
        ({
            let ruled = ProxyView {
                policy: PolicyView {
                    scopes: v.policy.scopes.insert(scope, rule),
                    ..v.policy
                },
                ..v
            };
            handle_step(ruled, tool, args, bypass, now).1 == handle_step(
                v,
                tool,
                args,
                bypass,
                now,
            ).1
        }),
{
}

/// With checks off, marks play no part.
pub proof fn law_without_checks_marks_play_no_part(
    v: ProxyView,
    marks: Map<(Seq<char>, Seq<char>), DirtyEntry>,
    tool: Seq<char>,
    args: JsonTree,
    bypass: bool,
    now: Moment,
)
    requires
        !v.reval.enabled,
    ensures
        handle_step(ProxyView { marks, ..v }, tool, args, bypass, now).1 == handle_step(
            v,
            tool,
            args,
            bypass,
            now,
        ).1,
{
}

/// One step of a proxy at work.
pub enum Step {
    /// A call comes in.
    Call { tool: Seq<char>, args: JsonTree, bypass: bool, now: Moment },
    /// The reply to a forwarded call comes in.
    Settle { route: RouteView, reply: Result<Seq<char>, Seq<char>>, now: Moment },
    /// Anything else becomes what it is in this view: entries go, files are
    /// marked, scopes are frozen, the policy is replaced.
    Other(ProxyView),
}

/// The proxy after one step. Only calls and replies touch the counters of calls.
pub open spec fn after_step(v: ProxyView, step: Step) -> ProxyView {
    match step {
        Step::Call { tool, args, bypass, now } => handle_step(v, tool, args, bypass, now).0,
        Step::Settle { route, reply, now } => settle_step(v, route, reply, now).0,
        Step::Other(w) => ProxyView {
            metrics: Metrics {
                cache_hits: v.metrics.cache_hits,
                cache_misses: v.metrics.cache_misses,
                bypass: v.metrics.bypass,
                ..w.metrics
            },
            ..w
        },
    }
}

/// The proxy after some steps.
pub open spec fn after_steps(v: ProxyView, steps: Seq<Step>) -> ProxyView
    decreases steps.len(),
{
    if steps.len() == 0 {
        v
    } else {
        after_step(after_steps(v, steps.drop_last()), steps.last())
    }
}

/// How many of some steps are calls.
pub open spec fn calls_in(steps: Seq<Step>) -> nat
    decreases steps.len(),
{
    if steps.len() == 0 {
        0
    } else {
        calls_in(steps.drop_last()) + if steps.last() is Call {
            1nat
        } else {
            0
        }
    }
}

/// Whether a step is a call that is refused because its scope is frozen.
pub open spec fn is_refused(v: ProxyView, step: Step) -> bool {
    match step {
        Step::Call { tool, args, bypass, now } => handle_step(
            v,
            tool,
            args,
            bypass,
            now,
        ).1 is Refuse,
        _ => false,
    }
}

/// How many of some steps are calls that are refused.
pub open spec fn refused_in(v: ProxyView, steps: Seq<Step>) -> nat
    decreases steps.len(),
{
    if steps.len() == 0 {
        0
    } else {
        refused_in(v, steps.drop_last()) + if is_refused(
            after_steps(v, steps.drop_last()),
            steps.last(),
        ) {
            1nat
        } else {
            0
        }
    }
}

/// How many calls were counted: as a hit, a miss or one past the cache.
pub open spec fn counted(m: Metrics) -> int {
    m.cache_hits + m.cache_misses + m.bypass
}

/// A call that is not refused bumps exactly one of the counters of hits, misses
/// and calls past the cache, and a refused one bumps none. A reply bumps none of
/// them, also where the call is repeated.
pub proof fn law_each_call_counts_once(
    v: ProxyView,
    tool: Seq<char>,
    args: JsonTree,
    bypass: bool,
    now: Moment,
    route: RouteView,
    reply: Result<Seq<char>, Seq<char>>,
)
    ensures
        ({
            let m = v.metrics;
            let (after, action) = handle_step(v, tool, args, bypass, now);
            if action is Refuse {
                after.metrics == m
            } else {
                ||| after.metrics == (Metrics { cache_hits: metrics::bump(m.cache_hits), ..m })
                ||| after.metrics == (Metrics { cache_misses: metrics::bump(m.cache_misses), ..m })
                ||| after.metrics == (Metrics { bypass: metrics::bump(m.bypass), ..m })
            }
        }),
        ({
            let after = settle_step(v, route, reply, now).0.metrics;
            &&& after.cache_hits == v.metrics.cache_hits
            &&& after.cache_misses == v.metrics.cache_misses
            &&& after.bypass == v.metrics.bypass
        }),
{
}

/// Over any run the counters of hits, misses and calls past the cache together
/// grow by the number of calls that were not refused, as long as they have room.
pub proof fn law_calls_of_a_run_are_counted(v: ProxyView, steps: Seq<Step>)
    requires
        counted(v.metrics) + calls_in(steps) <= u64::MAX,
    ensures
        counted(after_steps(v, steps).metrics) == counted(v.metrics) + calls_in(steps)
            - refused_in(v, steps),
        refused_in(v, steps) <= calls_in(steps),
    decreases steps.len(),
{
    if steps.len() > 0 {
        law_calls_of_a_run_are_counted(v, steps.drop_last());
    }
}

/// The scope of a call is the text under the first of the named arguments that is
/// one. Arguments that come later, that are no texts or that are not named play no part.
pub proof fn law_scope_is_the_first_text(
    names: Seq<Seq<char>>,
    args: JsonTree,
    i: int,
    scope: Seq<char>,
)
    requires
        0 <= i < names.len(),
        args.member(names[i]) == Some(JsonTree::Text(scope)),
        forall|j: int|
            0 <= j < i ==> !(args.member(#[trigger] names[j]) matches Some(JsonTree::Text(_))),
    ensures
        scope_of(names, args) == scope,
    decreases i,
{
    if i > 0 {
        assert(!(args.member(names[0]) matches Some(JsonTree::Text(_))));
        let rest = names.drop_first();
        assert forall|j: int| 0 <= j < i - 1 implies !(args.member(#[trigger] rest[j]) matches Some(
            JsonTree::Text(_),
        )) by {
            assert(rest[j] == names[j + 1]);
        }
        law_scope_is_the_first_text(rest, args, i - 1, scope);
    }
}

/// A call without a text under any of the named arguments has the empty scope.
pub proof fn law_call_without_a_scope(names: Seq<Seq<char>>, args: JsonTree)
    requires
        forall|j: int|
            0 <= j < names.len() ==> !(args.member(#[trigger] names[j]) matches Some(
                JsonTree::Text(_),
            )),
    ensures
        scope_of(names, args).len() == 0,
    decreases names.len(),
{
    if names.len() > 0 {
        assert(!(args.member(names[0]) matches Some(JsonTree::Text(_))));
        let rest = names.drop_first();
        assert forall|j: int| 0 <= j < rest.len() implies !(args.member(
            #[trigger] rest[j],
        ) matches Some(JsonTree::Text(_))) by {
            assert(rest[j] == names[j + 1]);
        }
        law_call_without_a_scope(rest, args);
    }
}

/// A refused call is told its own scope and the whole seconds that the freeze still
/// lasts, at least one.
pub proof fn law_refusal_says_when_to_come_back(
    v: ProxyView,
    tool: Seq<char>,
    args: JsonTree,
    bypass: bool,
    now: Moment,
)
    requires
        freeze::rest(v.freezes, scope_of(v.scope_args, args), now) is Some,
    ensures
        ({
            let left = freeze::rest(v.freezes, scope_of(v.scope_args, args), now)->0.nanos;
            handle_step(v, tool, args, bypass, now).1 matches ActionView::Refuse(
                ErrorView::Frozen { scope, retry_after_seconds },
            ) && {
                &&& scope == scope_of(v.scope_args, args)
                &&& left < 1_000_000_000 ==> retry_after_seconds == 1
                &&& left >= 1_000_000_000 && left / 1_000_000_000 <= u64::MAX
                    ==> retry_after_seconds == left / 1_000_000_000
            }
        }),
{
}

/// Where a scope is not frozen, a call in it is answered from the cache if and only
/// if it does not ask to go past it, its tool and its scope are cached, an answer
/// under its key has time to live left, and, with checks on, none of the files of
/// that answer is marked in the scope. It gets that answer.
pub proof fn law_call_is_answered_from_the_cache(
    v: ProxyView,
    tool: Seq<char>,
    args: JsonTree,
    bypass: bool,
    now: Moment,
)
    requires
        freeze::rest(v.freezes, scope_of(v.scope_args, args), now) is None,
    ensures
        ({
            let scope = scope_of(v.scope_args, args);
            let key = cache::cache_key(v.server_alias, scope, tool, args);
            let action = handle_step(v, tool, args, bypass, now).1;
            let stale = exists|f: Seq<char>|
                v.entries[key].files.contains(f) && #[trigger] v.marks.contains_key((scope, f));
            &&& action is Reply <==> {
                &&& !bypass
                &&& v.policy.ttl(tool) is Some
                &&& scope.len() == 0 || v.policy.scope_cacheable(scope)
                &&& v.entries.contains_key(key)
                &&& now.nanos < v.entries[key].expires_at.nanos
                &&& !(v.reval.enabled && stale)
            }
            &&& action matches ActionView::Reply(answer) ==> answer == v.entries[key].payload
        }),
{
    let scope = scope_of(v.scope_args, args);
    let key = cache::cache_key(v.server_alias, scope, tool, args);
    let files = v.entries[key].files;
    if exists|f: Seq<char>| files.contains(f) && #[trigger] v.marks.contains_key((scope, f)) {
        let f = choose|f: Seq<char>|
            files.contains(f) && #[trigger] v.marks.contains_key((scope, f));
        dirty::law_marked_file_is_found(v.marks, scope, files, f);
    } else {
        dirty::law_marked_file_is_found(v.marks, scope, files, scope);
    }
}

/// A call that is neither refused nor answered from the cache is forwarded. It goes
/// out on its own where it asks to go past the cache or its tool or its scope is
/// not cached. Else its answer is to be kept under its key for the time of its
/// tool, at least one second, and is checked, where checks are on, against the marks
/// of its scope until the time to wait is over.
pub proof fn law_forwarded_call_carries_its_terms(
    v: ProxyView,
    tool: Seq<char>,
    args: JsonTree,
    bypass: bool,
    now: Moment,
)
    requires
        freeze::rest(v.freezes, scope_of(v.scope_args, args), now) is None,
        !(handle_step(v, tool, args, bypass, now).1 is Reply),
    ensures
        ({
            let scope = scope_of(v.scope_args, args);
            let past = bypass || v.policy.ttl(tool) is None || (scope.len() > 0
                && !v.policy.scope_cacheable(scope));
            let secs: int = if v.policy.ttl(tool)->0 < 1 {
                1
            } else {
                v.policy.ttl(tool)->0 as int
            };
            handle_step(v, tool, args, bypass, now).1 matches ActionView::Forward(route) && {
                &&& route is Direct <==> past
                &&& route matches RouteView::Keep { key, ttl } ==> {
                    &&& !v.reval.enabled
                    &&& key == cache::cache_key(v.server_alias, scope, tool, args)
                    &&& ttl.nanos == secs * 1_000_000_000
                }
                &&& route matches RouteView::Revalidate { key, ttl, scope: s, deadline } ==> {
                    &&& v.reval.enabled
                    &&& key == cache::cache_key(v.server_alias, scope, tool, args)
                    &&& ttl.nanos == secs * 1_000_000_000
                    &&& s == scope
                    &&& now.nanos + v.reval.max_wait.nanos <= u128::MAX ==> deadline.nanos
                        == now.nanos + v.reval.max_wait.nanos
                }
            }
        }),
{
}

/// A call changes no more than one counter and the entry under its own key, which
/// goes if it has expired.
pub proof fn law_call_changes_no_more_than_its_entry(
    v: ProxyView,
    tool: Seq<char>,
    args: JsonTree,
    bypass: bool,
    now: Moment,
    other: Seq<char>,
)
    ensures
        ({
            let key = cache::cache_key(v.server_alias, scope_of(v.scope_args, args), tool, args);
            let after = handle_step(v, tool, args, bypass, now).0;
            &&& after == (ProxyView { entries: after.entries, metrics: after.metrics, ..v })
            &&& after.entries.contains_key(other) ==> v.entries.contains_key(other)
                && after.entries[other] == v.entries[other]
            &&& v.entries.contains_key(other) && !after.entries.contains_key(other) ==> other == key
                && now.nanos >= v.entries[key].expires_at.nanos
            &&& after.metrics.backend_errors == v.metrics.backend_errors
            &&& after.metrics.cache_size == v.metrics.cache_size
            &&& after.metrics.reverse_index_size == v.metrics.reverse_index_size
        }),
{
}

/// What a call is counted as: an answer from the cache as a hit, a call that goes
/// out on its own as one past the cache, any other that is forwarded as a miss, and
/// a refused one not at all.
pub proof fn law_call_is_counted_as_what_it_is(
    v: ProxyView,
    tool: Seq<char>,
    args: JsonTree,
    bypass: bool,
    now: Moment,
)
    requires
        v.metrics.cache_hits < u64::MAX,
        v.metrics.cache_misses < u64::MAX,
        v.metrics.bypass < u64::MAX,
    ensures
        ({
            let (after, action) = handle_step(v, tool, args, bypass, now);
            let direct = action == ActionView::Forward(RouteView::Direct);
            &&& after.metrics.cache_hits == v.metrics.cache_hits + if action is Reply {
                1int
            } else {
                0
            }
            &&& after.metrics.bypass == v.metrics.bypass + if direct {
                1int
            } else {
                0
            }
            &&& after.metrics.cache_misses == v.metrics.cache_misses + if action is Forward
                && !direct {
                1int
            } else {
                0
            }
        }),
{
}

/// Without checks an answer is kept under its key and handed out at once. The
/// other entries, the marks and the freezes stay as they were.
pub proof fn law_answer_is_kept_without_checks(
    v: ProxyView,
    key: Seq<char>,
    ttl: Span,
    payload: Seq<char>,
    now: Moment,
    other: Seq<char>,
)
    ensures
        ({
            let (after, action) = settle_step(v, RouteView::Keep { key, ttl }, Ok(payload), now);
            &&& action == ActionView::Reply(meta::stripped(payload))
            &&& after == (ProxyView { entries: after.entries, metrics: after.metrics, ..v })
            &&& after.entries.contains_key(key)
            &&& after.entries[key].payload == meta::stripped(payload)
            &&& after.entries[key].files == meta::dependent_files(payload)
            &&& after.entries[key].recorded_at == now
            &&& now.nanos + ttl.nanos <= u128::MAX ==> after.entries[key].expires_at.nanos
                == now.nanos + ttl.nanos
            &&& other != key ==> after.entries.contains_key(other) == v.entries.contains_key(other)
            &&& other != key && v.entries.contains_key(other) ==> after.entries[other]
                == v.entries[other]
            &&& after.entries.dom().len() <= usize::MAX ==> after.metrics.cache_size
                == after.entries.dom().len()
            &&& after.metrics == (Metrics { cache_size: after.metrics.cache_size, ..v.metrics })
        }),
{
}

/// An answer none of whose files is marked in the scope of the call is kept under
/// its key and handed out at once, also where it names no files or nothing is
/// marked. No mark changes.
pub proof fn law_unmarked_answer_is_kept_at_once(
    v: ProxyView,
    key: Seq<char>,
    ttl: Span,
    scope: Seq<char>,
    deadline: Moment,
    payload: Seq<char>,
    now: Moment,
    other: Seq<char>,
)
    requires
        forall|f: Seq<char>| #[trigger]
            meta::dependent_files(payload).contains(f) ==> !v.marks.contains_key((scope, f)),
    ensures
        ({
            let route = RouteView::Revalidate { key, ttl, scope, deadline };
            let (after, action) = settle_step(v, route, Ok(payload), now);
            &&& action == ActionView::Reply(meta::stripped(payload))
            &&& after == (ProxyView { entries: after.entries, metrics: after.metrics, ..v })
            &&& after.entries.contains_key(key)
            &&& after.entries[key].payload == meta::stripped(payload)
            &&& after.entries[key].files == meta::dependent_files(payload)
            &&& after.entries[key].recorded_at == now
            &&& now.nanos + ttl.nanos <= u128::MAX ==> after.entries[key].expires_at.nanos
                == now.nanos + ttl.nanos
            &&& other != key ==> after.entries.contains_key(other) == v.entries.contains_key(other)
            &&& other != key && v.entries.contains_key(other) ==> after.entries[other]
                == v.entries[other]
        }),
{
    let files = meta::dependent_files(payload);
    assert forall|i: int| 0 <= i < files.len() implies !v.marks.contains_key(
        (scope, #[trigger] files[i]),
    ) by {
        assert(files.contains(files[i]));
    }
    let route = RouteView::Revalidate { key, ttl, scope, deadline };
    let after = settle_step(v, route, Ok(payload), now).0;
    assert(after.marks =~= v.marks) by {
        assert forall|k: (Seq<char>, Seq<char>)| v.marks.contains_key(k) implies !(k.0 == scope
            && files.contains(k.1)) by {
            if files.contains(k.1) {
                assert(k == (k.0, k.1));
            }
        }
    }
}

/// With checks on, an answer is kept if and only if for each of its files that is
/// marked in the scope of the call it reports a time no smaller than the observed
/// one. Then the marks on its files in that scope go and no others. Else nothing
/// changes; the call is repeated after a pause as long as there is time left, and
/// after that gets the answer all the same.
pub proof fn law_checked_answer_is_kept_once_the_index_caught_up(
    v: ProxyView,
    key: Seq<char>,
    ttl: Span,
    scope: Seq<char>,
    deadline: Moment,
    payload: Seq<char>,
    now: Moment,
    mark: (Seq<char>, Seq<char>),
)
    ensures
        ({
            let files = meta::dependent_files(payload);
            let times = meta::file_mtimes(payload);
            let behind = exists|f: Seq<char>|
                #![trigger files.contains(f)]
                files.contains(f) && v.marks.contains_key((scope, f)) && (!times.contains_key(f)
                    || times[f] < v.marks[(scope, f)].observed);
            let route = RouteView::Revalidate { key, ttl, scope, deadline };
            let (after, action) = settle_step(v, route, Ok(payload), now);
            &&& behind ==> after == v
            &&& behind && now.nanos < deadline.nanos ==> action == ActionView::Retry(
                route,
                v.reval.retry_interval,
            )
            &&& !behind || now.nanos >= deadline.nanos ==> action == ActionView::Reply(
                meta::stripped(payload),
            )
            &&& !behind ==> {
                &&& after.entries == v.entries.insert(key, after.entries[key])
                &&& after.entries[key].payload == meta::stripped(payload)
                &&& after.entries[key].files == files
                &&& after.entries[key].recorded_at == now
                &&& now.nanos + ttl.nanos <= u128::MAX ==> after.entries[key].expires_at.nanos
                    == now.nanos + ttl.nanos
                &&& after.marks.contains_key(mark) <==> v.marks.contains_key(mark) && !(mark.0
                    == scope && files.contains(mark.1))
                &&& after.marks.contains_key(mark) ==> after.marks[mark] == v.marks[mark]
                &&& after == (ProxyView {
                    entries: after.entries,
                    marks: after.marks,
                    metrics: Metrics { cache_size: after.metrics.cache_size, ..v.metrics },
                    ..v
                })
                &&& after.entries.dom().len() <= usize::MAX ==> after.metrics.cache_size
                    == after.entries.dom().len()
            }
        }),
{
    let files = meta::dependent_files(payload);
    let times = meta::file_mtimes(payload);
    if caught_up(v.marks, scope, files, times) {
        assert forall|f: Seq<char>| files.contains(f) && v.marks.contains_key(
            (scope, f),
        ) implies times.contains_key(f) && times[f] >= v.marks[(scope, f)].observed by {
            let i = choose|i: int| 0 <= i < files.len() && files[i] == f;
            assert(v.marks.contains_key((scope, files[i])));
        }
        let route = RouteView::Revalidate { key, ttl, scope, deadline };
        let after = settle_step(v, route, Ok(payload), now).0;
        assert(after.entries =~= v.entries.insert(key, after.entries[key]));
    } else {
        let i = choose|i: int|
            0 <= i < files.len() && v.marks.contains_key((scope, #[trigger] files[i])) && !(
            times.contains_key(files[i]) && times[files[i]] >= v.marks[(
                scope,
                files[i],
            )].observed);
        assert(files.contains(files[i]));
    }
}

/// The reply to a call that went out on its own is handed out and changes nothing.
pub proof fn law_direct_reply_changes_nothing(v: ProxyView, payload: Seq<char>, now: Moment)
    ensures
        settle_step(v, RouteView::Direct, Ok(payload), now) == (
            v,
            ActionView::Reply(meta::stripped(payload)),
        ),
{
}

/// A failed call is counted as a backend error, once.
pub proof fn law_failure_is_counted(
    v: ProxyView,
    route: RouteView,
    reason: Seq<char>,
    now: Moment,
)
    requires
        v.metrics.backend_errors < u64::MAX,
    ensures
        settle_step(v, route, Err(reason), now).0.metrics.backend_errors
            == v.metrics.backend_errors + 1,
        settle_step(v, route, Err(reason), now).0.entries == v.entries,
        settle_step(v, route, Err(reason), now).0.marks == v.marks,
{
}

/// An answer is handed out to equal calls for the time of its tool, at least one
/// second, without a word to the backend, and not a moment longer: from then on an
/// equal call is forwarded. With checks on that holds of an answer for whose marked
/// files the index has caught up, so also of one that names no files.
pub proof fn law_answer_lives_for_the_time_of_its_tool(
    v: ProxyView,
    tool: Seq<char>,
    args: JsonTree,
    first: Moment,
    payload: Seq<char>,
    replied: Moment,
    second: Moment,
)
    requires
        handle_step(v, tool, args, false, first).1 matches ActionView::Forward(route) && !(
        route is Direct),
        v.reval.enabled ==> forall|f: Seq<char>| #[trigger]
            meta::dependent_files(payload).contains(f) && v.marks.contains_key(
                (scope_of(v.scope_args, args), f),
            ) ==> meta::file_mtimes(payload).contains_key(f) && meta::file_mtimes(payload)[f]
                >= v.marks[(scope_of(v.scope_args, args), f)].observed,
        freeze::rest(v.freezes, scope_of(v.scope_args, args), second) is None,
        replied.is_reading(),
    ensures
        ({
            let (asked, action) = handle_step(v, tool, args, false, first);
            let (answered, outcome) = settle_step(
                asked,
                action->Forward_0,
                Ok(payload),
                replied,
            );
            let secs: int = if v.policy.ttl(tool)->0 < 1 {
                1
            } else {
                v.policy.ttl(tool)->0 as int
            };
            let repeated = handle_step(answered, tool, args, false, second).1;
            &&& outcome == ActionView::Reply(meta::stripped(payload))
            &&& second.nanos < replied.nanos + secs * 1_000_000_000 ==> repeated == outcome
            &&& second.nanos >= replied.nanos + secs * 1_000_000_000 ==> repeated is Forward
        }),
{
    let scope = scope_of(v.scope_args, args);
    let key = cache::cache_key(v.server_alias, scope, tool, args);
    let files = meta::dependent_files(payload);
    let (asked, action) = handle_step(v, tool, args, false, first);
    let (answered, outcome) = settle_step(asked, action->Forward_0, Ok(payload), replied);
    if v.reval.enabled {
        assert(caught_up(v.marks, scope, files, meta::file_mtimes(payload))) by {
            assert forall|i: int|
                0 <= i < files.len() && v.marks.contains_key(
                    (scope, #[trigger] files[i]),
                ) implies meta::file_mtimes(payload).contains_key(files[i]) && meta::file_mtimes(
                payload,
            )[files[i]] >= v.marks[(scope, files[i])].observed by {
                assert(files.contains(files[i]));
            }
        }
        assert(!dirty::some_marked(answered.marks, scope, files)) by {
            if dirty::some_marked(answered.marks, scope, files) {
                let i = choose|i: int|
                    0 <= i < files.len() && answered.marks.contains_key(
                        (scope, #[trigger] files[i]),
                    );
                assert(files.contains(files[i]));
            }
        }
    }
    assert(answered.entries[key].files == files);
}

/// An answer is kept for one call and no other: a call of the same tool whose
/// arguments are written differently fares as if the answer had not been kept,
/// unless the digests of two different texts are the same.
pub proof fn law_other_arguments_fare_as_before(
    v: ProxyView,
    tool: Seq<char>,
    args: JsonTree,
    ttl: Span,
    payload: Seq<char>,
    replied: Moment,
    other_tool: Seq<char>,
    other_args: JsonTree,
    bypass: bool,
    now: Moment,
)
    requires
        !scope_of(v.scope_args, args).contains('|'),
        !scope_of(v.scope_args, other_args).contains('|'),
        json::json_printed(args.sorted()) != json::json_printed(other_args.sorted()) || tool
            != other_tool,
        cache::sha256_digest(vstd::utf8::encode_utf8(json::json_printed(args.sorted())))
            == cache::sha256_digest(
            vstd::utf8::encode_utf8(json::json_printed(other_args.sorted())),
        ) ==> json::json_printed(args.sorted()) == json::json_printed(other_args.sorted()),
    ensures
        ({
            let key = cache::cache_key(v.server_alias, scope_of(v.scope_args, args), tool, args);
            let after = settle_step(v, RouteView::Keep { key, ttl }, Ok(payload), replied).0;
            handle_step(after, other_tool, other_args, bypass, now).1 == handle_step(
                v,
                other_tool,
                other_args,
                bypass,
                now,
            ).1
        }),
{
    let scope = scope_of(v.scope_args, args);
    let other_scope = scope_of(v.scope_args, other_args);
    let key = cache::cache_key(v.server_alias, scope, tool, args);
    let other_key = cache::cache_key(v.server_alias, other_scope, other_tool, other_args);
    if key == other_key {
        cache::law_equal_keys_mean_equal_calls(
            v.server_alias,
            scope,
            tool,
            args,
            other_scope,
            other_tool,
            other_args,
        );
    }
}

/// The message of an error ends with what a backend or the proxy said, and that of
/// a frozen scope names the scope and the seconds.
pub proof fn law_message_says_the_reason(
    reason: Seq<char>,
    other: Seq<char>,
    scope: Seq<char>,
    secs: u64,
)
    ensures
        reason.is_suffix_of(ErrorView::Backend(reason).message()),
        reason.is_suffix_of(ErrorView::Internal(reason).message()),
        ErrorView::Backend(reason).message() == ErrorView::Backend(other).message() ==> reason
            == other,
        exists|head: Seq<char>, tail: Seq<char>|
            (ErrorView::Frozen { scope, retry_after_seconds: secs }).message() == #[trigger] (head
                + scope + tail),
        exists|head: Seq<char>, tail: Seq<char>|
            (ErrorView::Frozen { scope, retry_after_seconds: secs }).message() == #[trigger] (head
                + text::decimal(secs as nat) + tail),
{
    let backend = ErrorView::Backend(reason).message();
    let other_backend = ErrorView::Backend(other).message();
    let internal = ErrorView::Internal(reason).message();
    assert(backend.subrange(backend.len() - reason.len(), backend.len() as int) =~= reason);
    assert(internal.subrange(internal.len() - reason.len(), internal.len() as int) =~= reason);
    if backend == other_backend {
        let n = "ошибка обращения к бэкенду: "@.len() as int;
        assert(backend.skip(n) =~= reason);
        assert(other_backend.skip(n) =~= other);
    }
    let frozen = (ErrorView::Frozen { scope, retry_after_seconds: secs }).message();
    let shown = text::decimal(secs as nat);
    assert(frozen =~= "прокси заморожен (scope='"@ + scope + ("', retry after "@ + shown
        + "s)"@));
    assert(frozen =~= "прокси заморожен (scope='"@ + scope + "', retry after "@ + shown + "s)"@);
}

/// Calls whose answers are to be kept go out once for all equal calls at a time:
/// two such calls share a flight if and only if they have one key. Any other call
/// goes out on its own.
pub proof fn law_calls_to_be_kept_share_a_flight(
    v: ProxyView,
    tool: Seq<char>,
    args: JsonTree,
    bypass: bool,
    now: Moment,
)
    ensures
        handle_step(v, tool, args, bypass, now).1 matches ActionView::Forward(route) ==> {
            &&& bypass || v.policy.ttl(tool) is None ==> route.flight() is None
            &&& !(route is Direct) ==> route.flight() == Some(
                cache::cache_key(v.server_alias, scope_of(v.scope_args, args), tool, args),
            )
        },
{
}

/// Whether one of some steps was the arrival of an answer from the backend that an
/// entry under a key holds: what a client gets of that answer, to be handed out from
/// then on for its time to live.
pub open spec fn came_from_the_backend(
    steps: Seq<Step>,
    key: Seq<char>,
    entry: EntryView,
) -> bool {
    exists|i: int|
        0 <= i < steps.len() && match #[trigger] steps[i] {
            Step::Settle { route: RouteView::Keep { key: k, ttl }, reply: Ok(payload), now } => {
                &&& k == key
                &&& entry.payload == meta::stripped(payload)
                &&& entry.expires_at == now.after(ttl)
            },
            Step::Settle {
                route: RouteView::Revalidate { key: k, ttl, .. },
                reply: Ok(payload),
                now,
            } => {
                &&& k == key
                &&& entry.payload == meta::stripped(payload)
                &&& entry.expires_at == now.after(ttl)
            },
            _ => false,
        }
}

/// Whether steps other than calls and replies only ever drop answers.
pub open spec fn others_only_drop(v: ProxyView, steps: Seq<Step>) -> bool
    decreases steps.len(),
{
    steps.len() > 0 ==> {
        &&& others_only_drop(v, steps.drop_last())
        &&& steps.last() matches Step::Other(w) ==> w.entries.submap_of(
            after_steps(v, steps.drop_last()).entries,
        )
    }
}

/// What came in during some steps came in during more of them.
proof fn lemma_came_earlier(steps: Seq<Step>, key: Seq<char>, entry: EntryView)
    requires
        steps.len() > 0,
        came_from_the_backend(steps.drop_last(), key, entry),
    ensures
        came_from_the_backend(steps, key, entry),
{
    let head = steps.drop_last();
    let i = choose|i: int|
        0 <= i < head.len() && match #[trigger] head[i] {
            Step::Settle { route: RouteView::Keep { key: k, ttl }, reply: Ok(payload), now } => {
                &&& k == key
                &&& entry.payload == meta::stripped(payload)
                &&& entry.expires_at == now.after(ttl)
            },
            Step::Settle {
                route: RouteView::Revalidate { key: k, ttl, .. },
                reply: Ok(payload),
                now,
            } => {
                &&& k == key
                &&& entry.payload == meta::stripped(payload)
                &&& entry.expires_at == now.after(ttl)
            },
            _ => false,
        };
    assert(steps[i] == head[i]);
}

/// Over any run that starts without answers, every answer that is kept under a key
/// came from the backend as the reply to a call with that key: nothing is made up,
/// and nothing is kept under the key of another call.
pub proof fn law_every_answer_came_from_the_backend(
    v: ProxyView,
    steps: Seq<Step>,
    key: Seq<char>,
)
    requires
        !v.entries.contains_key(key),
        others_only_drop(v, steps),
    ensures
        after_steps(v, steps).entries.contains_key(key) ==> came_from_the_backend(
            steps,
            key,
            after_steps(v, steps).entries[key],
        ),
    decreases steps.len(),
{
    if steps.len() > 0 {
        let head = steps.drop_last();
        let before = after_steps(v, head);
        let after = after_steps(v, steps);
        law_every_answer_came_from_the_backend(v, head, key);
        if after.entries.contains_key(key) {
            if before.entries.contains_key(key) && after.entries[key] == before.entries[key] {
                lemma_came_earlier(steps, key, after.entries[key]);
            } else {
                assert(steps[steps.len() - 1] == steps.last());
                match steps.last() {
                    Step::Call { tool, args, bypass, now } => {
                        law_call_changes_no_more_than_its_entry(
                            before,
                            tool,
                            args,
                            bypass,
                            now,
                            key,
                        );
                    },
                    Step::Settle { route, reply, now } => {},
                    Step::Other(w) => {
                        assert(w.entries.dom().contains(key));
                    },
                }
            }
        }
    }
}

/// The settings turn checks on and off and give the time to wait and the pause
/// between two tries, in milliseconds. With no time to wait there is none.
pub proof fn law_checks_follow_the_settings(settings: CacheConfig)
    ensures
        ({
            let reval = RevalConfig::of(settings);
            &&& reval.enabled == settings.lazy_revalidation_enabled
            &&& reval.max_wait.nanos == settings.revalidation_max_wait_ms * 1_000_000
            &&& reval.retry_interval.nanos == settings.revalidation_retry_interval_ms * 1_000_000
            &&& settings.revalidation_max_wait_ms == 0 ==> reval.max_wait.nanos == 0
        }),
{
}

} // verus!
