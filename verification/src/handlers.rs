//! The service endpoints: health, metrics, invalidation, marks, freezes, status.

use crate::batch;
use crate::cache;
use crate::cache::{Cache, EntryView};
use crate::clock::{Moment, Span};
use crate::dirty;
use crate::dirty::DirtyEntry;
use crate::freeze;
use crate::freeze::FreezeEntry;
use crate::json;
use crate::json::{Json, JsonTree};
use crate::metrics::{Metrics, MetricsSnapshot};
use crate::proxy;
use crate::proxy::{CacheProxy, ProxyView};
use crate::text;
use vstd::prelude::*;

verus! {

/// What the endpoints work on.
pub struct AppState {
    pub proxy: CacheProxy,
    pub backend_url: String,
}

/// An optional text as it came in.
pub open spec fn opt_text(value: Option<String>) -> Option<Seq<char>> {
    match value {
        Some(s) => Some(s@),
        None => None,
    }
}

/// The first of three optional texts that is there and not empty, else the empty text.
pub open spec fn picked(
    scope: Option<Seq<char>>,
    repo: Option<Seq<char>>,
    base: Option<Seq<char>>,
) -> Seq<char> {
    match scope {
        Some(s) if s.len() > 0 => s,
        _ => match repo {
            Some(s) if s.len() > 0 => s,
            _ => match base {
                Some(s) if s.len() > 0 => s,
                _ => Seq::empty(),
            },
        },
    }
}

/// The scope of a request: `scope` is its name, `repo` and `base` are synonyms.
/// The first one that is there and not empty counts; without any the scope is empty.
pub fn pick_scope(scope: &Option<String>, repo: &Option<String>, base: &Option<String>) -> (r:
    String)
    ensures
        r@ == picked(opt_text(*scope), opt_text(*repo), opt_text(*base)),
{
    match scope {
        Some(s) => if !s.as_str().is_empty() {
            return s.clone();
        },
        None => {},
    }
    match repo {
        Some(s) => if !s.as_str().is_empty() {
            return s.clone();
        },
        None => {},
    }
    match base {
        Some(s) => if !s.as_str().is_empty() {
            return s.clone();
        },
        None => {},
    }
    let none: String = String::new();
    assert(none@ =~= Seq::empty());
    none
}

/// The freezes that are on, as they stand in a reply.
pub open spec fn freezes_tree(list: Seq<(Seq<char>, u64)>) -> JsonTree {
    JsonTree::Array(
        Seq::new(
            list.len(),
            |i: int|
                JsonTree::Object(
                    seq![
                        ("scope"@, JsonTree::Text(list[i].0)),
                        ("ttl_remaining_seconds"@, JsonTree::Int(list[i].1 as int)),
                    ],
                ),
        ),
    )
}

/// The freezes that are on, as they stand in a reply.
fn freezes_json(list: Vec<FreezeEntry>) -> (r: Json)
    ensures
        r.tree() == freezes_tree(freeze::listing(list@)),
{
    let ghost all = list@;
    let mut out: Vec<Json> = Vec::new();
    for entry in it: list
        invariant
            it.seq() == all,
            out@.len() == it.index(),
            forall|i: int|
                0 <= i < out@.len() ==> (#[trigger] out@[i]).tree() == freezes_tree(
                    freeze::listing(all),
                )->Array_0[i],
    {
        let ghost k = it.index();
        let ms: Vec<(String, Json)> = vec![
            ("scope".to_string(), Json::Text(entry.scope)),
            ("ttl_remaining_seconds".to_string(), json::count_json(entry.ttl_remaining_seconds)),
        ];
        proof {
            json::lemma_object_tree(ms);
            let shown = freeze::listing(all)[k];
            assert(shown == entry@);
            assert(json::members(ms@) =~= seq![
                ("scope"@, JsonTree::Text(shown.0)),
                ("ttl_remaining_seconds"@, JsonTree::Int(shown.1 as int)),
            ]);
        }
        out.push(Json::Object(ms));
    }
    proof {
        json::lemma_array_tree(out);
        assert(json::trees(out@) =~= freezes_tree(freeze::listing(all))->Array_0);
    }
    Json::Array(out)
}

/// A request to drop answers.
#[derive(Debug)]
pub struct InvalidateRequest {
    /// Drop the answers of this scope.
    pub scope: Option<String>,
    /// A synonym of `scope`.
    pub repo: Option<String>,
    /// A synonym of `scope`.
    pub base: Option<String>,
    /// Drop the answers whose keys start with this.
    pub key_prefix: Option<String>,
    /// Drop all answers.
    pub all: bool,
    /// Drop the answers built on at least one of these files.
    pub file_paths: Option<Vec<String>>,
    /// Drop the answers built on this file.
    pub file_path: Option<String>,
}

/// What is left of the entries after a request to drop answers, if the request
/// says which ones: all, else by files, else by one file, else by scope, else by
/// key prefix.
pub open spec fn left_after(
    v: ProxyView,
    req: InvalidateRequest,
) -> Option<Map<Seq<char>, EntryView>> {
    let scope = picked(opt_text(req.scope), opt_text(req.repo), opt_text(req.base));
    if req.all {
        Some(Map::empty())
    } else {
        match (req.file_paths, req.file_path, req.key_prefix) {
            (Some(paths), _, _) => Some(cache::untouched(v.entries, text::texts(paths@))),
            (None, Some(path), _) => Some(cache::untouched(v.entries, seq![path@])),
            (None, None, prefix) => if scope.len() > 0 {
                Some(cache::without_prefix(v.entries, cache::prefix_of(v.server_alias, scope)))
            } else {
                match prefix {
                    Some(prefix) => Some(cache::without_prefix(v.entries, prefix@)),
                    None => None,
                }
            },
        }
    }
}

/// The reply to a request that dropped answers.
pub open spec fn invalidated_tree(
    before: Map<Seq<char>, EntryView>,
    after: Map<Seq<char>, EntryView>,
) -> JsonTree {
    JsonTree::Object(
        seq![
            ("removed"@, JsonTree::Int(before.dom().len() - after.dom().len())),
            ("cache_size"@, JsonTree::Int(after.dom().len() as int)),
            ("reverse_index_size"@, JsonTree::Int(cache::files_of(after).len() as int)),
        ],
    )
}

/// The error for a request that does not say which answers to drop.
pub open spec fn nothing_named() -> JsonTree {
    batch::error_object(
        "укажите один из параметров: scope (синонимы repo/base), key_prefix, file_paths, file_path или all=true"@,
    )
}

/// One changed file.
#[derive(Debug)]
pub struct MarkDirtyFile {
    pub path: String,
    /// The observed modification time, in seconds.
    pub mtime: i64,
}

/// A report on changed files.
#[derive(Debug)]
pub struct MarkDirtyRequest {
    /// The scope of the files.
    pub repo: Option<String>,
    /// A synonym of `repo`.
    pub base: Option<String>,
    pub files: Vec<MarkDirtyFile>,
}

/// The scope of a report: `repo` if it is there, else `base` if it is there,
/// else the empty scope.
pub open spec fn report_scope(req: MarkDirtyRequest) -> Seq<char> {
    match (req.repo, req.base) {
        (Some(s), _) => s@,
        (None, Some(s)) => s@,
        (None, None) => Seq::empty(),
    }
}

/// The marks after a report on some files.
pub open spec fn marked_all(
    marks: Map<(Seq<char>, Seq<char>), DirtyEntry>,
    scope: Seq<char>,
    files: Seq<MarkDirtyFile>,
    now: Moment,
) -> Map<(Seq<char>, Seq<char>), DirtyEntry>
    decreases files.len(),
{
    if files.len() == 0 {
        marks
    } else {
        dirty::marked(
            marked_all(marks, scope, files.drop_last(), now),
            scope,
            files.last().path@,
            files.last().mtime,
            now,
        )
    }
}

/// The reply to a report on changed files.
pub open spec fn marked_tree(
    files: nat,
    scope: Seq<char>,
    marks: Map<(Seq<char>, Seq<char>), DirtyEntry>,
) -> JsonTree {
    JsonTree::Object(
        seq![
            ("marked"@, JsonTree::Int(files as int)),
            ("scope"@, JsonTree::Text(scope)),
            ("dirty_size"@, JsonTree::Int(marks.dom().len() as int)),
        ],
    )
}

/// A request to freeze a scope, all of them if none is named.
#[derive(Debug)]
pub struct FreezeRequest {
    pub scope: Option<String>,
    /// A synonym of `scope`.
    pub repo: Option<String>,
    /// A synonym of `scope`.
    pub base: Option<String>,
    pub duration_seconds: u64,
}

/// The scope that a request freezes.
pub open spec fn scope_to_freeze(req: FreezeRequest) -> Seq<char> {
    picked(opt_text(req.scope), opt_text(req.repo), opt_text(req.base))
}

/// The freezes after a request to freeze a scope.
pub open spec fn frozen(
    freezes: Seq<(Seq<char>, Moment)>,
    req: FreezeRequest,
    now: Moment,
) -> Seq<(Seq<char>, Moment)> {
    freeze::with_freeze(
        freezes,
        scope_to_freeze(req),
        now.after(Span::of_secs(req.duration_seconds)),
    )
}

/// The reply to a request to freeze a scope.
pub open spec fn frozen_tree(
    req: FreezeRequest,
    freezes: Seq<(Seq<char>, Moment)>,
    now: Moment,
) -> JsonTree {
    JsonTree::Object(
        seq![
            ("frozen"@, JsonTree::Bool(true)),
            ("scope"@, JsonTree::Text(scope_to_freeze(req))),
            ("duration_seconds"@, JsonTree::Int(req.duration_seconds as int)),
            ("active"@, freezes_tree(freeze::active(freezes, now))),
        ],
    )
}

/// A request to lift the freeze of a scope, or all freezes.
#[derive(Debug)]
pub struct ThawRequest {
    pub scope: Option<String>,
    /// A synonym of `scope`.
    pub repo: Option<String>,
    /// A synonym of `scope`.
    pub base: Option<String>,
    pub all: bool,
}

/// The freezes after a request to lift some.
pub open spec fn thawed(
    freezes: Seq<(Seq<char>, Moment)>,
    req: ThawRequest,
) -> Seq<(Seq<char>, Moment)> {
    if req.all {
        Seq::empty()
    } else {
        freeze::without_freeze(
            freezes,
            picked(opt_text(req.scope), opt_text(req.repo), opt_text(req.base)),
        )
    }
}

/// The reply to a request to lift freezes.
pub open spec fn thawed_tree(
    req: ThawRequest,
    freezes: Seq<(Seq<char>, Moment)>,
    now: Moment,
) -> JsonTree {
    JsonTree::Object(
        seq![
            (
                "thawed"@,
                JsonTree::Text(
                    if req.all {
                        "all"@
                    } else {
                        picked(opt_text(req.scope), opt_text(req.repo), opt_text(req.base))
                    },
                ),
            ),
            ("active"@, freezes_tree(freeze::active(freezes, now))),
        ],
    )
}

/// The counters as they stand in a reply.
pub open spec fn metrics_tree(m: Metrics) -> JsonTree {
    JsonTree::Object(
        seq![
            ("cache_hits"@, JsonTree::Int(m.cache_hits as int)),
            ("cache_misses"@, JsonTree::Int(m.cache_misses as int)),
            ("bypass"@, JsonTree::Int(m.bypass as int)),
            ("backend_errors"@, JsonTree::Int(m.backend_errors as int)),
            ("cache_size"@, JsonTree::Int(m.cache_size as int)),
            ("reverse_index_size"@, JsonTree::Int(m.reverse_index_size as int)),
        ],
    )
}

/// The counters as they stand in a reply.
pub fn metrics_members(snap: &MetricsSnapshot) -> (r: Json)
    ensures
        r.tree() == metrics_tree(
            Metrics {
                cache_hits: snap.cache_hits,
                cache_misses: snap.cache_misses,
                bypass: snap.bypass,
                backend_errors: snap.backend_errors,
                cache_size: snap.cache_size,
                reverse_index_size: snap.reverse_index_size,
            },
        ),
{
    let ms: Vec<(String, Json)> = vec![
        ("cache_hits".to_string(), json::count_json(snap.cache_hits)),
        ("cache_misses".to_string(), json::count_json(snap.cache_misses)),
        ("bypass".to_string(), json::count_json(snap.bypass)),
        ("backend_errors".to_string(), json::count_json(snap.backend_errors)),
        ("cache_size".to_string(), json::count_json(snap.cache_size as u64)),
        ("reverse_index_size".to_string(), json::count_json(snap.reverse_index_size as u64)),
    ];
    proof {
        json::lemma_object_tree(ms);
        assert(json::members(ms@) =~= seq![
            ("cache_hits"@, JsonTree::Int(snap.cache_hits as int)),
            ("cache_misses"@, JsonTree::Int(snap.cache_misses as int)),
            ("bypass"@, JsonTree::Int(snap.bypass as int)),
            ("backend_errors"@, JsonTree::Int(snap.backend_errors as int)),
            ("cache_size"@, JsonTree::Int(snap.cache_size as int)),
            ("reverse_index_size"@, JsonTree::Int(snap.reverse_index_size as int)),
        ]);
    }
    Json::Object(ms)
}

/// The reply on the health of the proxy.
pub open spec fn health_tree(
    v: ProxyView,
    backend_url: Seq<char>,
    version: Seq<char>,
    now: Moment,
) -> JsonTree {
    JsonTree::Object(
        seq![
            ("status"@, JsonTree::Text("ok"@)),
            ("backend_url"@, JsonTree::Text(backend_url)),
            ("cache_size"@, JsonTree::Int(v.metrics.cache_size as int)),
            ("version"@, JsonTree::Text(version)),
            ("server_alias"@, JsonTree::Text(v.server_alias)),
            ("frozen_scopes"@, freezes_tree(freeze::active(v.freezes, now))),
        ],
    )
}

/// The reply on the state of the proxy.
pub open spec fn status_tree(v: ProxyView, backend_url: Seq<char>, now: Moment) -> JsonTree {
    JsonTree::Object(
        seq![
            ("server_alias"@, JsonTree::Text(v.server_alias)),
            ("backend_url"@, JsonTree::Text(backend_url)),
            ("cache_size"@, JsonTree::Int(v.metrics.cache_size as int)),
            ("metrics"@, metrics_tree(v.metrics)),
            ("frozen_scopes"@, freezes_tree(freeze::active(v.freezes, now))),
            ("dirty_size"@, JsonTree::Int(v.marks.dom().len() as int)),
        ],
    )
}

/// The counters with the present size of the reverse index.
pub open spec fn with_index_size(v: ProxyView) -> ProxyView {
    ProxyView {
        metrics: Metrics {
            reverse_index_size: cache::files_of(v.entries).len() as usize,
            ..v.metrics
        },
        ..v
    }
}

/// The health of the proxy.
pub fn health(state: &AppState, version: &str) -> (r: Json)
    ensures
        exists|now: Moment|
            now.is_reading() && state.proxy.clock.reports(now) && r.tree() == #[trigger] health_tree(
                state.proxy@,
                state.backend_url@,
                version@,
                now,
            ),
{
    let now = state.proxy.clock.now();
    health_at(state, version, now)
}

/// The health of the proxy at `now`.
pub fn health_at(state: &AppState, version: &str, now: Moment) -> (r: Json)
    ensures
        r.tree() == health_tree(state.proxy@, state.backend_url@, version@, now),
{
    let snap = state.proxy.metrics.snapshot();
    let ms: Vec<(String, Json)> = vec![
        ("status".to_string(), Json::Text("ok".to_string())),
        ("backend_url".to_string(), Json::Text(state.backend_url.clone())),
        ("cache_size".to_string(), json::count_json(snap.cache_size as u64)),
        ("version".to_string(), Json::Text(version.to_string())),
        ("server_alias".to_string(), Json::Text(state.proxy.server_alias.clone())),
        (
            "frozen_scopes".to_string(),
            freezes_json(state.proxy.freeze.list_active_at(now)),
        ),
    ];
    proof {
        json::lemma_object_tree(ms);
        assert(json::members(ms@) =~= health_tree(
            state.proxy@,
            state.backend_url@,
            version@,
            now,
        )->Object_0);
    }
    Json::Object(ms)
}

/// The metrics in the Prometheus text format, with the present size of the
/// reverse index. The average latency comes as text.
pub fn metrics(state: &mut AppState, avg_backend_latency_ms: &str) -> (r: String)
    requires
        old(state).proxy.wf(),
    ensures
        final(state).proxy.wf(),
        final(state).proxy.clock == old(state).proxy.clock,
        final(state).backend_url == old(state).backend_url,
        final(state).proxy@ == with_index_size(old(state).proxy@),
        ({
            let counters = with_index_size(old(state).proxy@).metrics;
            let alias = old(state).proxy@.server_alias;
            r@ == counters.counter_text(alias) + counters.gauge_text(
                alias,
                avg_backend_latency_ms@,
            )
        }),
{
    state.proxy.metrics.update_reverse_index_size(state.proxy.cache.reverse_index_size());
    state.proxy.metrics.to_prometheus_text(
        state.proxy.server_alias.as_str(),
        avg_backend_latency_ms,
    )
}

/// The counters, with the present size of the reverse index.
pub fn metrics_json(state: &mut AppState) -> (r: Json)
    requires
        old(state).proxy.wf(),
    ensures
        final(state).proxy.wf(),
        final(state).proxy.clock == old(state).proxy.clock,
        final(state).backend_url == old(state).backend_url,
        final(state).proxy@ == with_index_size(old(state).proxy@),
        r.tree() == metrics_tree(final(state).proxy@.metrics),
{
    state.proxy.metrics.update_reverse_index_size(state.proxy.cache.reverse_index_size());
    let snap = state.proxy.metrics.snapshot();
    metrics_members(&snap)
}

/// Drop the answers that a request names, and say how many they were. A
/// request that names none is an error and changes nothing.
pub fn invalidate(state: &mut AppState, req: InvalidateRequest) -> (r: Result<Json, Json>)
    requires
        old(state).proxy.wf(),
    ensures
        final(state).proxy.wf(),
        final(state).proxy.clock == old(state).proxy.clock,
        final(state).backend_url == old(state).backend_url,
        match left_after(old(state).proxy@, req) {
            Some(left) => {
                &&& final(state).proxy@ == (ProxyView {
                    entries: left,
                    metrics: Metrics {
                        cache_size: left.dom().len() as usize,
                        ..old(state).proxy@.metrics
                    },
                    ..old(state).proxy@
                })
                &&& r matches Ok(body) && body.tree() == invalidated_tree(
                    old(state).proxy@.entries,
                    left,
                )
            },
            None => {
                &&& final(state).proxy@ == old(state).proxy@
                &&& r matches Err(body) && body.tree() == nothing_named()
            },
        },
{
    let scope = pick_scope(&req.scope, &req.repo, &req.base);
    let removed: usize = if req.all {
        let n: usize = state.proxy.cache.len();
        state.proxy.cache.clear();
        n
    } else {
        match (req.file_paths, req.file_path, req.key_prefix) {
            (Some(paths), _, _) => state.proxy.cache.invalidate_files(paths.as_slice()),
            (None, Some(path), _) => {
                let paths: Vec<String> = vec![path];
                assert(text::texts(paths@) =~= seq![path@]);
                state.proxy.cache.invalidate_files(paths.as_slice())
            },
            (None, None, prefix) => if !scope.as_str().is_empty() {
                let head = Cache::scope_prefix(
                    state.proxy.server_alias.as_str(),
                    scope.as_str(),
                );
                state.proxy.cache.invalidate_prefix(head.as_str())
            } else {
                match prefix {
                    Some(prefix) => state.proxy.cache.invalidate_prefix(prefix.as_str()),
                    None => {
                        return Err(
                            batch::error_json(
                                "укажите один из параметров: scope (синонимы repo/base), key_prefix, file_paths, file_path или all=true".to_string(),
                            ),
                        );
                    },
                }
            },
        }
    };
    let size: usize = state.proxy.cache.len();
    state.proxy.metrics.update_cache_size(size);
    let ms: Vec<(String, Json)> = vec![
        ("removed".to_string(), json::count_json(removed as u64)),
        ("cache_size".to_string(), json::count_json(size as u64)),
        (
            "reverse_index_size".to_string(),
            json::count_json(state.proxy.cache.reverse_index_size() as u64),
        ),
    ];
    proof {
        json::lemma_object_tree(ms);
        assert(json::members(ms@) =~= invalidated_tree(
            old(state).proxy@.entries,
            state.proxy@.entries,
        )->Object_0);
    }
    Ok(Json::Object(ms))
}

/// Mark the files of a report, and say how many they were.
pub fn mark_dirty(state: &mut AppState, req: MarkDirtyRequest) -> (r: Json)
    requires
        old(state).proxy.wf(),
    ensures
        final(state).proxy.wf(),
        final(state).proxy.clock == old(state).proxy.clock,
        final(state).backend_url == old(state).backend_url,
        exists|now: Moment|
            now.is_reading() && old(state).proxy.clock.reports(now) && final(state).proxy@ == (ProxyView {
                marks: #[trigger] marked_all(
                    old(state).proxy@.marks,
                    report_scope(req),
                    req.files@,
                    now,
                ),
                ..old(state).proxy@
            }),
        r.tree() == marked_tree(
            req.files@.len(),
            report_scope(req),
            final(state).proxy@.marks,
        ),
{
    let now = state.proxy.clock.now();
    mark_dirty_at(state, req, now)
}

/// Mark the files of a report that comes in at `now`, and say how many they were.
pub fn mark_dirty_at(state: &mut AppState, req: MarkDirtyRequest, now: Moment) -> (r: Json)
    requires
        old(state).proxy.wf(),
    ensures
        final(state).proxy.wf(),
        final(state).proxy.clock == old(state).proxy.clock,
        final(state).backend_url == old(state).backend_url,
        final(state).proxy@ == (ProxyView {
            marks: marked_all(
                old(state).proxy@.marks,
                report_scope(req),
                req.files@,
                now,
            ),
            ..old(state).proxy@
        }),
        r.tree() == marked_tree(
            req.files@.len(),
            report_scope(req),
            final(state).proxy@.marks,
        ),
{
    let ghost name = report_scope(req);
    let scope: String = match (req.repo, req.base) {
        (Some(s), _) => s,
        (None, Some(s)) => s,
        (None, None) => String::new(),
    };
    assert(scope@ =~= name);
    let files = req.files;
    let mut i: usize = 0;
    assert(files@.take(0) =~= Seq::empty());
    while i < files.len()
        invariant
            state.proxy.wf(),
            state.proxy.clock == old(state).proxy.clock,
            state.backend_url == old(state).backend_url,
            i <= files@.len(),
            scope@ == name,
            state.proxy@ == (ProxyView {
                marks: marked_all(old(state).proxy@.marks, name, files@.take(i as int), now),
                ..old(state).proxy@
            }),
        decreases files@.len() - i,
    {
        assert(files@.take(i + 1).drop_last() =~= files@.take(i as int));
        state.proxy.dirty.mark_at(
            scope.as_str(),
            files[i].path.as_str(),
            files[i].mtime,
            now,
        );
        i = i + 1;
    }
    assert(files@.take(files@.len() as int) =~= files@);
    let ms: Vec<(String, Json)> = vec![
        ("marked".to_string(), json::count_json(files.len() as u64)),
        ("scope".to_string(), Json::Text(scope)),
        ("dirty_size".to_string(), json::count_json(state.proxy.dirty.len() as u64)),
    ];
    proof {
        json::lemma_object_tree(ms);
        assert(json::members(ms@) =~= marked_tree(
            req.files@.len(),
            name,
            state.proxy@.marks,
        )->Object_0);
    }
    Json::Object(ms)
}

/// Freeze a scope.
pub fn freeze(state: &mut AppState, req: FreezeRequest) -> (r: Json)
    requires
        old(state).proxy.wf(),
    ensures
        final(state).proxy.wf(),
        final(state).proxy.clock == old(state).proxy.clock,
        final(state).backend_url == old(state).backend_url,
        exists|now: Moment|
            {
                &&& now.is_reading()
                &&& old(state).proxy.clock.reports(now)
                &&& final(state).proxy@ == (ProxyView {
                    freezes: #[trigger] frozen(old(state).proxy@.freezes, req, now),
                    ..old(state).proxy@
                })
                &&& r.tree() == frozen_tree(req, final(state).proxy@.freezes, now)
            },
{
    let now = state.proxy.clock.now();
    freeze_at(state, req, now)
}

/// Freeze a scope from `now` on.
pub fn freeze_at(state: &mut AppState, req: FreezeRequest, now: Moment) -> (r: Json)
    requires
        old(state).proxy.wf(),
    ensures
        final(state).proxy.wf(),
        final(state).proxy.clock == old(state).proxy.clock,
        final(state).backend_url == old(state).backend_url,
        final(state).proxy@ == (ProxyView {
            freezes: frozen(old(state).proxy@.freezes, req, now),
            ..old(state).proxy@
        }),
        r.tree() == frozen_tree(req, final(state).proxy@.freezes, now),
{
    let scope = pick_scope(&req.scope, &req.repo, &req.base);
    state.proxy.freeze.freeze_at(
        scope.as_str(),
        Span::from_secs(req.duration_seconds),
        now,
    );
    let ms: Vec<(String, Json)> = vec![
        ("frozen".to_string(), Json::Bool(true)),
        ("scope".to_string(), Json::Text(scope)),
        ("duration_seconds".to_string(), json::count_json(req.duration_seconds)),
        ("active".to_string(), freezes_json(state.proxy.freeze.list_active_at(now))),
    ];
    proof {
        json::lemma_object_tree(ms);
        assert(json::members(ms@) =~= frozen_tree(req, state.proxy@.freezes, now)->Object_0);
    }
    Json::Object(ms)
}

/// Lift the freeze of a scope, or all freezes.
pub fn thaw(state: &mut AppState, req: ThawRequest) -> (r: Json)
    requires
        old(state).proxy.wf(),
    ensures
        final(state).proxy.wf(),
        final(state).proxy.clock == old(state).proxy.clock,
        final(state).backend_url == old(state).backend_url,
        final(state).proxy@ == (ProxyView {
            freezes: thawed(old(state).proxy@.freezes, req),
            ..old(state).proxy@
        }),
        exists|now: Moment|
            now.is_reading() && old(state).proxy.clock.reports(now) && r.tree()
                == #[trigger] thawed_tree(req, final(state).proxy@.freezes, now),
{
    let now = state.proxy.clock.now();
    thaw_at(state, req, now)
}

/// Lift the freeze of a scope, or all freezes, and list those that are on at `now`.
pub fn thaw_at(state: &mut AppState, req: ThawRequest, now: Moment) -> (r: Json)
    requires
        old(state).proxy.wf(),
    ensures
        final(state).proxy.wf(),
        final(state).proxy.clock == old(state).proxy.clock,
        final(state).backend_url == old(state).backend_url,
        final(state).proxy@ == (ProxyView {
            freezes: thawed(old(state).proxy@.freezes, req),
            ..old(state).proxy@
        }),
        r.tree() == thawed_tree(req, final(state).proxy@.freezes, now),
{
    let name: String = if req.all {
        state.proxy.freeze.thaw_all();
        "all".to_string()
    } else {
        let scope = pick_scope(&req.scope, &req.repo, &req.base);
        state.proxy.freeze.thaw(scope.as_str());
        scope
    };
    let ms: Vec<(String, Json)> = vec![
        ("thawed".to_string(), Json::Text(name)),
        ("active".to_string(), freezes_json(state.proxy.freeze.list_active_at(now))),
    ];
    proof {
        json::lemma_object_tree(ms);
        assert(json::members(ms@) =~= thawed_tree(req, state.proxy@.freezes, now)->Object_0);
    }
    Json::Object(ms)
}

/// The state of the proxy.
pub fn status(state: &AppState) -> (r: Json)
    ensures
        exists|now: Moment|
            now.is_reading() && state.proxy.clock.reports(now) && r.tree()
                == #[trigger] status_tree(state.proxy@, state.backend_url@, now),
{
    let now = state.proxy.clock.now();
    status_at(state, now)
}

/// The state of the proxy at `now`.
pub fn status_at(state: &AppState, now: Moment) -> (r: Json)
    ensures
        r.tree() == status_tree(state.proxy@, state.backend_url@, now),
{
    let snap = state.proxy.metrics.snapshot();
    let ms: Vec<(String, Json)> = vec![
        ("server_alias".to_string(), Json::Text(state.proxy.server_alias.clone())),
        ("backend_url".to_string(), Json::Text(state.backend_url.clone())),
        ("cache_size".to_string(), json::count_json(snap.cache_size as u64)),
        ("metrics".to_string(), metrics_members(&snap)),
        (
            "frozen_scopes".to_string(),
            freezes_json(state.proxy.freeze.list_active_at(now)),
        ),
        ("dirty_size".to_string(), json::count_json(state.proxy.dirty.len() as u64)),
    ];
    proof {
        json::lemma_object_tree(ms);
        assert(json::members(ms@) =~= status_tree(
            state.proxy@,
            state.backend_url@,
            now,
        )->Object_0);
    }
    Json::Object(ms)
}

/// The scope of a request is the first of `scope`, `repo` and `base` that is there
/// and not empty, and empty without any.
pub proof fn law_first_named_scope_counts(
    scope: Option<Seq<char>>,
    repo: Option<Seq<char>>,
    base: Option<Seq<char>>,
    name: Seq<char>,
)
    ensures
        name.len() > 0 ==> picked(Some(name), repo, base) == name,
        name.len() > 0 && (scope matches Some(s) ==> s.len() == 0) ==> picked(
            scope,
            Some(name),
            base,
        ) == name,
        name.len() > 0 && (scope matches Some(s) ==> s.len() == 0) && (repo matches Some(s)
            ==> s.len() == 0) ==> picked(scope, repo, Some(name)) == name,
        (scope matches Some(s) ==> s.len() == 0) && (repo matches Some(s) ==> s.len() == 0) && (
        base matches Some(s) ==> s.len() == 0) ==> picked(scope, repo, base).len() == 0,
{
}

/// What a report does to the mark under a scope and a path.
proof fn lemma_marked_all(
    marks: Map<(Seq<char>, Seq<char>), DirtyEntry>,
    scope: Seq<char>,
    files: Seq<MarkDirtyFile>,
    now: Moment,
    key: (Seq<char>, Seq<char>),
)
    ensures
        ({
            let after = marked_all(marks, scope, files, now);
            let named = key.0 == scope && exists|i: int|
                0 <= i < files.len() && (#[trigger] files[i]).path@ == key.1;
            &&& after.contains_key(key) <==> marks.contains_key(key) || named
            &&& !named && marks.contains_key(key) ==> after[key] == marks[key]
            &&& named ==> after[key].marked_at == now
            &&& marks.contains_key(key) ==> after[key].observed >= marks[key].observed
            &&& forall|i: int|
                0 <= i < files.len() && key.0 == scope && (#[trigger] files[i]).path@ == key.1
                    ==> after[key].observed >= files[i].mtime
            &&& named ==> (marks.contains_key(key) && after[key].observed == marks[key].observed)
                || exists|i: int|
                0 <= i < files.len() && (#[trigger] files[i]).path@ == key.1 && files[i].mtime
                    == after[key].observed
        }),
    decreases files.len(),
{
    if files.len() > 0 {
        let head = files.drop_last();
        let last = files.len() - 1;
        let before = marked_all(marks, scope, head, now);
        let after = marked_all(marks, scope, files, now);
        lemma_marked_all(marks, scope, head, now, key);
        dirty::law_report_marks_one_file(
            before,
            scope,
            files.last().path@,
            files.last().mtime,
            now,
            key,
        );
        assert(files[last] == files.last());
        if exists|i: int| 0 <= i < head.len() && (#[trigger] head[i]).path@ == key.1 {
            let i = choose|i: int| 0 <= i < head.len() && (#[trigger] head[i]).path@ == key.1;
            assert(files[i] == head[i]);
        }
        if exists|i: int| 0 <= i < files.len() && (#[trigger] files[i]).path@ == key.1 {
            let i = choose|i: int| 0 <= i < files.len() && (#[trigger] files[i]).path@ == key.1;
            if i < last {
                assert(head[i] == files[i]);
            }
        }
        assert forall|i: int|
            0 <= i < files.len() && key.0 == scope && (
            #[trigger] files[i]).path@ == key.1 implies after[key].observed >= files[i].mtime by {
            if i < last {
                assert(head[i] == files[i]);
            }
        }
        if exists|i: int|
            0 <= i < head.len() && (#[trigger] head[i]).path@ == key.1 && head[i].mtime
                == before[key].observed {
            let i = choose|i: int|
                0 <= i < head.len() && (#[trigger] head[i]).path@ == key.1 && head[i].mtime
                    == before[key].observed;
            assert(files[i] == head[i]);
        }
    }
}

/// The scope of a report is its `repo`, whatever its `base` is; only without a
/// `repo` it is its `base`, and only without either it is empty.
pub proof fn law_report_belongs_to_its_repo(req: MarkDirtyRequest)
    ensures
        req.repo matches Some(repo) ==> report_scope(req) == repo@,
        req.repo is None ==> (req.base matches Some(base) ==> report_scope(req) == base@),
        req.repo is None && req.base is None ==> report_scope(req).len() == 0,
{
}

/// After a report every reported file is marked in the scope of the report, with a
/// time no smaller than any that was reported for it, now or before, and with none
/// that was not. No mark in another scope or on another file changes.
pub proof fn law_report_marks_every_file(
    marks: Map<(Seq<char>, Seq<char>), DirtyEntry>,
    req: MarkDirtyRequest,
    now: Moment,
    scope: Seq<char>,
    i: int,
    other: (Seq<char>, Seq<char>),
)
    requires
        match (req.repo, req.base) {
            (Some(repo), _) => scope == repo@,
            (None, Some(base)) => scope == base@,
            (None, None) => scope.len() == 0,
        },
        0 <= i < req.files@.len(),
    ensures
        ({
            let files = req.files@;
            let after = marked_all(marks, report_scope(req), files, now);
            let key = (scope, files[i].path@);
            &&& after.contains_key(key)
            &&& after[key].observed >= files[i].mtime
            &&& after[key].marked_at == now
            &&& marks.contains_key(key) ==> after[key].observed >= marks[key].observed
            &&& (marks.contains_key(key) && after[key].observed == marks[key].observed) || exists|
                j: int,
            |
                0 <= j < files.len() && (#[trigger] files[j]).path@ == key.1 && files[j].mtime
                    == after[key].observed
            &&& other.0 != scope || (forall|j: int|
                0 <= j < files.len() ==> (#[trigger] files[j]).path@ != other.1) ==> {
                &&& after.contains_key(other) == marks.contains_key(other)
                &&& marks.contains_key(other) ==> after[other] == marks[other]
            }
        }),
{
    if scope.len() == 0 {
        assert(scope =~= Seq::empty());
    }
    lemma_marked_all(marks, scope, req.files@, now, (scope, req.files@[i].path@));
    lemma_marked_all(marks, scope, req.files@, now, other);
}

/// After a report on a file, with checks on, no answer built on that file is handed
/// out in the scope of the report: the call is forwarded or refused.
pub proof fn law_reported_file_is_revalidated(
    v: ProxyView,
    req: MarkDirtyRequest,
    reported: Moment,
    repo: Seq<char>,
    i: int,
    tool: Seq<char>,
    args: JsonTree,
    bypass: bool,
    now: Moment,
)
    requires
        v.reval.enabled,
        req.repo matches Some(name) && name@ == repo,
        0 <= i < req.files@.len(),
        proxy::scope_of(v.scope_args, args) == repo,
        ({
            let key = cache::cache_key(v.server_alias, repo, tool, args);
            v.entries.contains_key(key) ==> v.entries[key].files.contains(req.files@[i].path@)
        }),
    ensures
        ({
            let after = ProxyView {
                marks: marked_all(v.marks, report_scope(req), req.files@, reported),
                ..v
            };
            !(proxy::handle_step(after, tool, args, bypass, now).1 is Reply)
        }),
{
    let path = req.files@[i].path@;
    let marks = marked_all(v.marks, report_scope(req), req.files@, reported);
    let key = cache::cache_key(v.server_alias, repo, tool, args);
    lemma_marked_all(v.marks, repo, req.files@, reported, (repo, path));
    dirty::law_marked_file_is_found(marks, repo, v.entries[key].files, path);
}

/// A request to drop all answers leaves none, whatever else it names.
pub proof fn law_request_for_all_drops_all(v: ProxyView, req: InvalidateRequest, key: Seq<char>)
    requires
        req.all,
    ensures
        left_after(v, req) matches Some(left) && !left.contains_key(key),
{
}

/// A request that names files leaves exactly the answers built on none of them, as
/// they were, whatever scope or prefix it names.
pub proof fn law_request_for_files_drops_their_answers(
    v: ProxyView,
    req: InvalidateRequest,
    paths: Vec<String>,
    key: Seq<char>,
)
    requires
        !req.all,
        req.file_paths == Some(paths),
    ensures
        left_after(v, req) matches Some(left) && {
            &&& left.contains_key(key) <==> v.entries.contains_key(key) && !(exists|i: int|
                0 <= i < paths@.len() && v.entries[key].files.contains((#[trigger] paths@[i])@))
            &&& left.contains_key(key) ==> left[key] == v.entries[key]
        },
{
    let names = text::texts(paths@);
    let entry = v.entries[key];
    if entry.touches(names) {
        let i = choose|i: int| 0 <= i < names.len() && entry.files.contains(#[trigger] names[i]);
        assert(entry.files.contains(paths@[i]@));
    }
    if exists|i: int| 0 <= i < paths@.len() && entry.files.contains((#[trigger] paths@[i])@) {
        let i = choose|i: int|
            0 <= i < paths@.len() && entry.files.contains((#[trigger] paths@[i])@);
        assert(entry.files.contains(names[i]));
    }
}

/// A request that names one file leaves exactly the answers not built on it, as
/// they were, whatever scope or prefix it names.
pub proof fn law_request_for_one_file_drops_its_answers(
    v: ProxyView,
    req: InvalidateRequest,
    path: String,
    key: Seq<char>,
)
    requires
        !req.all,
        req.file_paths is None,
        req.file_path == Some(path),
    ensures
        left_after(v, req) matches Some(left) && {
            &&& left.contains_key(key) <==> v.entries.contains_key(key)
                && !v.entries[key].files.contains(path@)
            &&& left.contains_key(key) ==> left[key] == v.entries[key]
        },
{
    let names = seq![path@];
    assert(names[0] == path@);
}

/// A request that names a scope, and no files, leaves the answers of every other
/// scope as they were and none of its own, whatever prefix it names.
pub proof fn law_request_for_a_scope_drops_its_answers(
    v: ProxyView,
    req: InvalidateRequest,
    scope: Seq<char>,
    tool: Seq<char>,
    args: JsonTree,
    other: Seq<char>,
)
    requires
        !req.all,
        req.file_paths is None,
        req.file_path is None,
        scope == picked(opt_text(req.scope), opt_text(req.repo), opt_text(req.base)),
        scope.len() > 0,
        !scope.contains('|'),
        !other.contains('|'),
    ensures
        ({
            let own = cache::cache_key(v.server_alias, scope, tool, args);
            let foreign = cache::cache_key(v.server_alias, other, tool, args);
            left_after(v, req) matches Some(left) && {
                &&& !left.contains_key(own)
                &&& other != scope ==> left.contains_key(foreign) == v.entries.contains_key(foreign)
                &&& left.contains_key(foreign) ==> left[foreign] == v.entries[foreign]
            }
        }),
{
    cache::law_scope_invalidation_is_exact(
        v.entries,
        v.server_alias,
        scope,
        scope,
        tool,
        args,
    );
    cache::law_scope_invalidation_is_exact(
        v.entries,
        v.server_alias,
        scope,
        other,
        tool,
        args,
    );
}

/// A request that names a key prefix and nothing else leaves exactly the answers
/// whose keys do not start with it, as they were.
pub proof fn law_request_for_a_prefix_drops_its_keys(
    v: ProxyView,
    req: InvalidateRequest,
    prefix: String,
    key: Seq<char>,
)
    requires
        !req.all,
        req.file_paths is None,
        req.file_path is None,
        picked(opt_text(req.scope), opt_text(req.repo), opt_text(req.base)).len() == 0,
        req.key_prefix == Some(prefix),
    ensures
        left_after(v, req) matches Some(left) && {
            &&& left.contains_key(key) <==> v.entries.contains_key(key) && !(key.len()
                >= prefix@.len() && key.take(prefix@.len() as int) == prefix@)
            &&& left.contains_key(key) ==> left[key] == v.entries[key]
        },
{
    if key.len() >= prefix@.len() {
        assert(key.subrange(0, prefix@.len() as int) =~= key.take(prefix@.len() as int));
    }
}

/// A request that names nothing is an error.
pub proof fn law_request_for_nothing_is_an_error(v: ProxyView, req: InvalidateRequest)
    requires
        !req.all,
        req.file_paths is None,
        req.file_path is None,
        picked(opt_text(req.scope), opt_text(req.repo), opt_text(req.base)).len() == 0,
        req.key_prefix is None,
    ensures
        left_after(v, req) is None,
{
}

/// The reply to a request that dropped answers says how many there were less, how
/// many are left, and how many files these were built on.
pub proof fn law_reply_counts_what_was_dropped(
    before: Map<Seq<char>, EntryView>,
    after: Map<Seq<char>, EntryView>,
)
    ensures
        ({
            let reply = invalidated_tree(before, after);
            &&& reply.member("removed"@) matches Some(JsonTree::Int(n)) && n + after.dom().len()
                == before.dom().len()
            &&& reply.member("cache_size"@) == Some(JsonTree::Int(after.dom().len() as int))
            &&& reply.member("reverse_index_size"@) == Some(
                JsonTree::Int(cache::files_of(after).len() as int),
            )
        }),
{
    let ms = invalidated_tree(before, after)->Object_0;
    reveal_strlit("removed");
    reveal_strlit("cache_size");
    reveal_strlit("reverse_index_size");
    assert("removed"@.len() == 7 && "cache_size"@.len() == 10);
    assert("reverse_index_size"@.len() == 18);
    json::lemma_listed_member(ms, 0);
    json::lemma_listed_member(ms, 1);
    json::lemma_listed_member(ms, 2);
}

/// The reply to a report names the number of files, the scope that they were marked
/// in and the number of marks.
pub proof fn law_reply_names_the_marked_scope(
    req: MarkDirtyRequest,
    marks: Map<(Seq<char>, Seq<char>), DirtyEntry>,
)
    ensures
        ({
            let reply = marked_tree(req.files@.len(), report_scope(req), marks);
            &&& reply.member("marked"@) == Some(JsonTree::Int(req.files@.len() as int))
            &&& req.repo matches Some(repo) ==> reply.member("scope"@) == Some(
                JsonTree::Text(repo@),
            )
            &&& reply.member("dirty_size"@) == Some(JsonTree::Int(marks.dom().len() as int))
        }),
{
    let ms = marked_tree(req.files@.len(), report_scope(req), marks)->Object_0;
    reveal_strlit("marked");
    reveal_strlit("scope");
    reveal_strlit("dirty_size");
    assert("marked"@.len() == 6 && "scope"@.len() == 5 && "dirty_size"@.len() == 10);
    json::lemma_listed_member(ms, 0);
    json::lemma_listed_member(ms, 1);
    json::lemma_listed_member(ms, 2);
}

/// A request to freeze a scope for some seconds has every call in it refused for
/// that long, and every call at all where it names no scope.
pub proof fn law_freeze_request_refuses_calls(
    v: ProxyView,
    req: FreezeRequest,
    now: Moment,
    scope: Seq<char>,
    tool: Seq<char>,
    args: JsonTree,
    bypass: bool,
    later: Moment,
)
    requires
        freeze::distinct(v.freezes),
        now.is_reading(),
        scope == picked(opt_text(req.scope), opt_text(req.repo), opt_text(req.base)),
        scope.len() == 0 || proxy::scope_of(v.scope_args, args) == scope,
        later.nanos < now.nanos + req.duration_seconds * 1_000_000_000,
    ensures
        ({
            let after = ProxyView { freezes: frozen(v.freezes, req, now), ..v };
            proxy::handle_step(after, tool, args, bypass, later).1 is Refuse
        }),
{
    proxy::law_freeze_refuses_until_it_ends(
        v,
        scope,
        now.after(Span::of_secs(req.duration_seconds)),
        tool,
        args,
        bypass,
        later,
    );
}

/// A request to freeze one scope changes nothing for the calls of another, and a
/// freeze that it sets on a scope that was not frozen is over after its seconds.
pub proof fn law_freeze_request_is_for_one_scope(
    v: ProxyView,
    req: FreezeRequest,
    now: Moment,
    scope: Seq<char>,
    tool: Seq<char>,
    args: JsonTree,
    bypass: bool,
    later: Moment,
)
    requires
        freeze::distinct(v.freezes),
        now.is_reading(),
        scope == picked(opt_text(req.scope), opt_text(req.repo), opt_text(req.base)),
        scope.len() > 0,
    ensures
        ({
            let after = ProxyView { freezes: frozen(v.freezes, req, now), ..v };
            let action = proxy::handle_step(after, tool, args, bypass, later).1;
            let before = proxy::handle_step(v, tool, args, bypass, later).1;
            &&& proxy::scope_of(v.scope_args, args) != scope ==> action == before
            &&& later.nanos >= now.nanos + req.duration_seconds * 1_000_000_000 ==> action == before
        }),
{
    let end = now.after(Span::of_secs(req.duration_seconds));
    let called = proxy::scope_of(v.scope_args, args);
    freeze::law_freeze_keeps_the_later_end(v.freezes, scope, end, called);
    freeze::law_freeze_keeps_the_later_end(v.freezes, scope, end, Seq::empty());
}

/// A request to lift all freezes leaves none; one to lift the freeze of a scope has
/// its calls served, where all scopes are not frozen, and changes nothing for others.
pub proof fn law_thaw_request_restores_service(
    v: ProxyView,
    req: ThawRequest,
    tool: Seq<char>,
    args: JsonTree,
    bypass: bool,
    now: Moment,
)
    requires
        freeze::distinct(v.freezes),
    ensures
        ({
            let scope = picked(opt_text(req.scope), opt_text(req.repo), opt_text(req.base));
            let called = proxy::scope_of(v.scope_args, args);
            let after = ProxyView { freezes: thawed(v.freezes, req), ..v };
            let action = proxy::handle_step(after, tool, args, bypass, now).1;
            &&& req.all ==> !(action is Refuse)
            &&& !req.all && called == scope && freeze::rest(v.freezes, Seq::empty(), now) is None
                ==> !(action is Refuse)
            &&& !req.all && scope.len() == 0 && called.len() > 0 && freeze::own_rest(
                v.freezes,
                called,
                now,
            ) is Some ==> action is Refuse
            &&& !req.all && scope.len() > 0 && called != scope ==> action == proxy::handle_step(
                v,
                tool,
                args,
                bypass,
                now,
            ).1
        }),
{
    let scope = picked(opt_text(req.scope), opt_text(req.repo), opt_text(req.base));
    let called = proxy::scope_of(v.scope_args, args);
    freeze::law_thaw_lifts_one_scope(v.freezes, scope, called);
    freeze::law_thaw_lifts_one_scope(v.freezes, scope, Seq::empty());
    if scope.len() == 0 {
        assert(scope =~= Seq::empty());
    }
    if req.all {
        freeze::lemma_scope_index(Seq::empty(), called);
        freeze::lemma_scope_index(Seq::empty(), Seq::empty());
    }
}

/// The list of freezes in a reply has an object for each, with its scope and its
/// whole seconds.
pub proof fn law_listed_freezes_are_named(list: Seq<(Seq<char>, u64)>, i: int)
    requires
        0 <= i < list.len(),
    ensures
        freezes_tree(list) matches JsonTree::Array(items) && {
            &&& items.len() == list.len()
            &&& items[i].member("scope"@) == Some(JsonTree::Text(list[i].0))
            &&& items[i].member("ttl_remaining_seconds"@) == Some(
                JsonTree::Int(list[i].1 as int),
            )
        },
{
    let ms = freezes_tree(list)->Array_0[i]->Object_0;
    reveal_strlit("scope");
    reveal_strlit("ttl_remaining_seconds");
    assert("scope"@.len() == 5 && "ttl_remaining_seconds"@.len() == 21);
    json::lemma_listed_member(ms, 0);
    json::lemma_listed_member(ms, 1);
}

/// The replies to requests on freezes name the scope they were for and list the
/// freezes that are on.
pub proof fn law_reply_names_the_frozen_scope(
    req: FreezeRequest,
    lift: ThawRequest,
    freezes: Seq<(Seq<char>, Moment)>,
    now: Moment,
)
    ensures
        frozen_tree(req, freezes, now).member("scope"@) == Some(
            JsonTree::Text(picked(opt_text(req.scope), opt_text(req.repo), opt_text(req.base))),
        ),
        frozen_tree(req, freezes, now).member("duration_seconds"@) == Some(
            JsonTree::Int(req.duration_seconds as int),
        ),
        frozen_tree(req, freezes, now).member("frozen"@) == Some(JsonTree::Bool(true)),
        frozen_tree(req, freezes, now).member("active"@) == Some(
            freezes_tree(freeze::active(freezes, now)),
        ),
        lift.all ==> thawed_tree(lift, freezes, now).member("thawed"@) == Some(
            JsonTree::Text("all"@),
        ),
        !lift.all ==> thawed_tree(lift, freezes, now).member("thawed"@) == Some(
            JsonTree::Text(
                picked(opt_text(lift.scope), opt_text(lift.repo), opt_text(lift.base)),
            ),
        ),
        thawed_tree(lift, freezes, now).member("active"@) == Some(
            freezes_tree(freeze::active(freezes, now)),
        ),
{
    reveal_strlit("frozen");
    reveal_strlit("scope");
    reveal_strlit("duration_seconds");
    reveal_strlit("active");
    reveal_strlit("thawed");
    assert("frozen"@[0] == 'f' && "active"@[0] == 'a' && "thawed"@[0] == 't');
    assert("frozen"@.len() == 6 && "active"@.len() == 6 && "thawed"@.len() == 6);
    assert("scope"@.len() == 5 && "duration_seconds"@.len() == 16);
    let ms = frozen_tree(req, freezes, now)->Object_0;
    json::lemma_listed_member(ms, 0);
    json::lemma_listed_member(ms, 1);
    json::lemma_listed_member(ms, 2);
    json::lemma_listed_member(ms, 3);
    let lifted = thawed_tree(lift, freezes, now)->Object_0;
    json::lemma_listed_member(lifted, 0);
    json::lemma_listed_member(lifted, 1);
}

/// Each counter stands in a reply under its own name.
pub proof fn law_counters_stand_under_their_names(m: Metrics)
    ensures
        metrics_tree(m).member("cache_hits"@) == Some(JsonTree::Int(m.cache_hits as int)),
        metrics_tree(m).member("cache_misses"@) == Some(JsonTree::Int(m.cache_misses as int)),
        metrics_tree(m).member("bypass"@) == Some(JsonTree::Int(m.bypass as int)),
        metrics_tree(m).member("backend_errors"@) == Some(JsonTree::Int(m.backend_errors as int)),
        metrics_tree(m).member("cache_size"@) == Some(JsonTree::Int(m.cache_size as int)),
        metrics_tree(m).member("reverse_index_size"@) == Some(
            JsonTree::Int(m.reverse_index_size as int),
        ),
{
    reveal_strlit("cache_hits");
    reveal_strlit("cache_misses");
    reveal_strlit("bypass");
    reveal_strlit("backend_errors");
    reveal_strlit("cache_size");
    reveal_strlit("reverse_index_size");
    assert("cache_hits"@.len() == 10 && "cache_size"@.len() == 10);
    assert("cache_hits"@[6] == 'h' && "cache_size"@[6] == 's');
    assert("cache_misses"@.len() == 12 && "bypass"@.len() == 6);
    assert("backend_errors"@.len() == 14 && "reverse_index_size"@.len() == 18);
    let ms = metrics_tree(m)->Object_0;
    json::lemma_listed_member(ms, 0);
    json::lemma_listed_member(ms, 1);
    json::lemma_listed_member(ms, 2);
    json::lemma_listed_member(ms, 3);
    json::lemma_listed_member(ms, 4);
    json::lemma_listed_member(ms, 5);
}

/// The reply on the health of the proxy names the backend, the version and the
/// alias, the number of answers and the freezes that are on.
pub proof fn law_health_names_the_proxy(
    v: ProxyView,
    backend_url: Seq<char>,
    version: Seq<char>,
    now: Moment,
)
    ensures
        ({
            let reply = health_tree(v, backend_url, version, now);
            &&& reply.member("status"@) == Some(JsonTree::Text("ok"@))
            &&& reply.member("backend_url"@) == Some(JsonTree::Text(backend_url))
            &&& reply.member("cache_size"@) == Some(JsonTree::Int(v.metrics.cache_size as int))
            &&& reply.member("version"@) == Some(JsonTree::Text(version))
            &&& reply.member("server_alias"@) == Some(JsonTree::Text(v.server_alias))
            &&& reply.member("frozen_scopes"@) == Some(
                freezes_tree(freeze::active(v.freezes, now)),
            )
        }),
{
    reveal_strlit("status");
    reveal_strlit("backend_url");
    reveal_strlit("cache_size");
    reveal_strlit("version");
    reveal_strlit("server_alias");
    reveal_strlit("frozen_scopes");
    assert("status"@.len() == 6 && "backend_url"@.len() == 11 && "cache_size"@.len() == 10);
    assert("version"@.len() == 7 && "server_alias"@.len() == 12 && "frozen_scopes"@.len() == 13);
    let ms = health_tree(v, backend_url, version, now)->Object_0;
    json::lemma_listed_member(ms, 0);
    json::lemma_listed_member(ms, 1);
    json::lemma_listed_member(ms, 2);
    json::lemma_listed_member(ms, 3);
    json::lemma_listed_member(ms, 4);
    json::lemma_listed_member(ms, 5);
}

/// The reply on the state of the proxy names the backend and the alias, the number
/// of answers and of marks, the counters and the freezes that are on.
pub proof fn law_status_names_the_state(v: ProxyView, backend_url: Seq<char>, now: Moment)
    ensures
        ({
            let reply = status_tree(v, backend_url, now);
            &&& reply.member("server_alias"@) == Some(JsonTree::Text(v.server_alias))
            &&& reply.member("backend_url"@) == Some(JsonTree::Text(backend_url))
            &&& reply.member("cache_size"@) == Some(JsonTree::Int(v.metrics.cache_size as int))
            &&& reply.member("metrics"@) == Some(metrics_tree(v.metrics))
            &&& reply.member("frozen_scopes"@) == Some(
                freezes_tree(freeze::active(v.freezes, now)),
            )
            &&& reply.member("dirty_size"@) == Some(JsonTree::Int(v.marks.dom().len() as int))
        }),
{
    reveal_strlit("server_alias");
    reveal_strlit("backend_url");
    reveal_strlit("cache_size");
    reveal_strlit("metrics");
    reveal_strlit("frozen_scopes");
    reveal_strlit("dirty_size");
    assert("cache_size"@[0] == 'c' && "dirty_size"@[0] == 'd');
    assert("cache_size"@.len() == 10 && "dirty_size"@.len() == 10 && "metrics"@.len() == 7);
    assert("server_alias"@.len() == 12 && "backend_url"@.len() == 11);
    assert("frozen_scopes"@.len() == 13);
    let ms = status_tree(v, backend_url, now)->Object_0;
    json::lemma_listed_member(ms, 0);
    json::lemma_listed_member(ms, 1);
    json::lemma_listed_member(ms, 2);
    json::lemma_listed_member(ms, 3);
    json::lemma_listed_member(ms, 4);
    json::lemma_listed_member(ms, 5);
}

/// The counters are shown with the number of files that the kept answers were built
/// on, and nothing else changes for it.
pub proof fn law_metrics_show_the_index_size(v: ProxyView)
    ensures
        cache::files_of(v.entries).len() <= usize::MAX ==> with_index_size(
            v,
        ).metrics.reverse_index_size == cache::files_of(v.entries).len(),
        with_index_size(v).entries == v.entries,
        with_index_size(v).metrics.cache_hits == v.metrics.cache_hits,
        with_index_size(v).metrics.cache_misses == v.metrics.cache_misses,
        with_index_size(v).metrics.bypass == v.metrics.bypass,
        with_index_size(v).metrics.backend_errors == v.metrics.backend_errors,
        with_index_size(v).metrics.cache_size == v.metrics.cache_size,
{
}

} // verus!
