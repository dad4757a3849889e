//! Calls for many names at once.
//!
//! Some tools take a list of names. Such a call is split into one call for each
//! name, which goes through the proxy like any other, so that the cache is shared
//! between calls for one name and calls for many. The results are put together in
//! the order of the names.

use crate::json;
use crate::json::{Json, JsonTree};
use crate::meta;
use crate::proxy;
use crate::proxy::{ErrorView, ProxyError, ProxyResult};
use crate::text;
use vstd::prelude::*;

verus! {

/// How many calls of one batch may be under way at a time.
pub const MAX_CONCURRENT_SUBCALLS: usize = 16;

/// For a tool that takes a list: the name of the list, the name of its single
/// form, and whether a result is taken out of its wrapper `result`.
pub open spec fn batch_tool(tool: Seq<char>) -> Option<(Seq<char>, Seq<char>, bool)> {
    if tool == "get_function"@ || tool == "get_class"@ {
        Some(("names"@, "name"@, false))
    } else if tool == "get_object_structure"@ {
        Some(("full_names"@, "full_name"@, true))
    } else {
        None
    }
}

/// The items of a list that a call has under a name.
pub open spec fn items_under(args: JsonTree, name: Seq<char>) -> Option<Seq<JsonTree>> {
    match args.member(name) {
        Some(value) => value.items(),
        None => None,
    }
}

/// How a call is split, if it is one for many names: its tool takes a list, and
/// its arguments have one.
pub open spec fn batch_of(tool: Seq<char>, args: JsonTree) -> Option<(Seq<char>, Seq<char>, bool)> {
    match batch_tool(tool) {
        Some((plural, singular, unwrap_result)) => if items_under(args, plural) is Some {
            Some((plural, singular, unwrap_result))
        } else {
            None
        },
        None => None,
    }
}

/// How a call is split, if it is one for many names.
pub fn detect_batch(tool: &str, args: &Json) -> (r: Option<(&'static str, &'static str, bool)>)
    ensures
        match r {
            Some((plural, singular, unwrap_result)) => batch_of(tool@, args.tree()) == Some(
                (plural@, singular@, unwrap_result),
            ),
            None => batch_of(tool@, args.tree()) is None,
        },
{
    let (plural, singular, unwrap_result): (&'static str, &'static str, bool) =
        if text::text_eq(tool, "get_function") || text::text_eq(tool, "get_class") {
        ("names", "name", false)
    } else if text::text_eq(tool, "get_object_structure") {
        ("full_names", "full_name", true)
    } else {
        return None;
    };
    match args.get(plural) {
        Some(value) => match value.as_array() {
            Some(_) => Some((plural, singular, unwrap_result)),
            None => None,
        },
        None => None,
    }
}

/// The arguments of the call for one name: those of the whole call without the
/// list, and with the name in its place.
pub open spec fn sub_args(
    args: JsonTree,
    plural: Seq<char>,
    singular: Seq<char>,
    name: Seq<char>,
) -> JsonTree {
    match args {
        JsonTree::Object(ms) => JsonTree::Object(
            json::without_member(json::without_member(ms, plural), singular).push(
                (singular, JsonTree::Text(name)),
            ),
        ),
        _ => args,
    }
}

/// The error for an item of a list that is no text.
pub open spec fn not_a_text(plural: Seq<char>) -> Seq<char> {
    plural + ": каждый элемент должен быть строкой"@
}

/// One item of a list: a call, or an error in its place.
#[derive(Debug)]
pub enum SubCall {
    Call(Json),
    Reject(String),
}

/// What one item of a list leads to.
pub enum SubCallView {
    Call(JsonTree),
    Reject(Seq<char>),
}

impl View for SubCall {
    type V = SubCallView;

    open spec fn view(&self) -> SubCallView {
        match self {
            SubCall::Call(args) => SubCallView::Call(args.tree()),
            SubCall::Reject(reason) => SubCallView::Reject(reason@),
        }
    }
}

/// What one item of a list leads to.
pub open spec fn sub_call(
    args: JsonTree,
    plural: Seq<char>,
    singular: Seq<char>,
    item: JsonTree,
) -> SubCallView {
    match item.text() {
        Some(name) => SubCallView::Call(sub_args(args, plural, singular, name)),
        None => SubCallView::Reject(not_a_text(plural)),
    }
}

/// The error for a call that is not one for many names.
pub open spec fn no_batch() -> ErrorView {
    ErrorView::Internal("handle_batch вызван не для батчевого инструмента"@)
}

/// What a call for many names is split into, in the order of the names.
pub open spec fn split_of(tool: Seq<char>, args: JsonTree) -> Result<Seq<SubCallView>, ErrorView> {
    match batch_of(tool, args) {
        Some((plural, singular, _)) => {
            let items = items_under(args, plural)->0;
            Ok(Seq::new(items.len(), |i: int| sub_call(args, plural, singular, items[i])))
        },
        None => Err(no_batch()),
    }
}

/// What splitting a call gave.
pub open spec fn split_view(r: Result<Vec<SubCall>, ProxyError>) -> Result<
    Seq<SubCallView>,
    ErrorView,
> {
    match r {
        Ok(calls) => Ok(Seq::new(calls@.len(), |i: int| calls@[i]@)),
        Err(error) => Err(error@),
    }
}

/// The error for an item of a list that is no text.
fn not_a_text_message(plural: &str) -> (r: String)
    ensures
        r@ == not_a_text(plural@),
{
    let mut out: String = plural.to_string();
    out.append(": каждый элемент должен быть строкой");
    out
}

/// Split a call for many names into calls for one name each, in order. An item
/// that is no text gets an error in its place.
pub fn split_batch(tool: &str, args: &Json) -> (r: Result<Vec<SubCall>, ProxyError>)
    ensures
        split_view(r) == split_of(tool@, args.tree()),
{
    let (plural, singular) = match detect_batch(tool, args) {
        Some((plural, singular, _)) => (plural, singular),
        None => {
            return Err(
                ProxyError::Internal(
                    "handle_batch вызван не для батчевого инструмента".to_string(),
                ),
            );
        },
    };
    let mut out: Vec<SubCall> = Vec::new();
    match args.get(plural) {
        Some(value) => match value.as_array() {
            Some(items) => {
                let ghost all = json::trees(items@);
                let mut i: usize = 0;
                while i < items.len()
                    invariant
                        i <= items@.len(),
                        all == json::trees(items@),
                        args.tree() is Object,
                        out@.len() == i,
                        forall|k: int|
                            0 <= k < i ==> (#[trigger] out@[k])@ == sub_call(
                                args.tree(),
                                plural@,
                                singular@,
                                all[k],
                            ),
                    decreases items@.len() - i,
                {
                    let step = match items[i].as_str() {
                        Some(name) => SubCall::Call(args_for_one(args, plural, singular, name)),
                        None => SubCall::Reject(not_a_text_message(plural)),
                    };
                    assert(all[i as int] == items@[i as int].tree());
                    out.push(step);
                    i = i + 1;
                }
            },
            None => {},
        },
        None => {},
    }
    let split: Result<Vec<SubCall>, ProxyError> = Ok(out);
    assert(split_view(split)->Ok_0 =~= split_of(tool@, args.tree())->Ok_0);
    split
}

/// The arguments of the call for one name.
fn args_for_one(args: &Json, plural: &str, singular: &str, name: &str) -> (r: Json)
    requires
        args.tree() is Object,
    ensures
        r.tree() == sub_args(args.tree(), plural@, singular@, name@),
{
    broadcast use json::lemma_object_tree;

    match args.clone() {
        Json::Object(ms) => {
            let (template, _) = json::remove_member(ms, plural);
            let (rest, _) = json::remove_member(template, singular);
            let mut ms = rest;
            let ghost before = ms@;
            let value = Json::Text(name.to_string());
            ms.push((singular.to_string(), value));
            assert(json::members(ms@) =~= json::members(before).push(
                (singular@, JsonTree::Text(name@)),
            ));
            Json::Object(ms)
        },
        other => other,
    }
}

/// The value inside an answer: what the first content text of an MCP result
/// parses to, that text itself where it is no JSON, else the answer as it is.
pub open spec fn answer_value(t: JsonTree) -> JsonTree {
    match meta::content_items(t) {
        Some(items) => if items.len() > 0 {
            match meta::item_text(items[0]) {
                Some(s) => match json::json_parsed(s) {
                    Some(inner) => inner,
                    None => JsonTree::Text(s),
                },
                None => t,
            }
        } else {
            t
        },
        None => t,
    }
}

/// A value without `_meta`, and out of its wrapper `result` where that is asked
/// for and there is one.
pub open spec fn unwrapped(value: JsonTree, unwrap_result: bool) -> JsonTree {
    let rest = meta::drop_meta(value);
    match rest.member("result"@) {
        Some(result) => if unwrap_result {
            result
        } else {
            rest
        },
        None => rest,
    }
}

/// The value of a call for one name as it stands in the results.
pub open spec fn inner(payload: Seq<char>, unwrap_result: bool) -> JsonTree {
    match json::json_parsed(payload) {
        Some(t) => unwrapped(answer_value(t), unwrap_result),
        None => JsonTree::Text(payload),
    }
}

/// A value without `_meta`, and out of its wrapper `result` where that is asked
/// for and there is one.
pub fn unwrap_value(value: Json, unwrap_result: bool) -> (r: Json)
    ensures
        r.tree() == unwrapped(value.tree(), unwrap_result),
{
    let (rest, _) = meta::without_meta(value);
    if unwrap_result {
        match rest.get("result") {
            Some(result) => {
                return result.clone();
            },
            None => {},
        }
    }
    rest
}

/// The value of a call for one name as it stands in the results. A text that is
/// no JSON stays a text.
pub fn inner_value(payload: &str, unwrap_result: bool) -> (r: Json)
    ensures
        r.tree() == inner(payload@, unwrap_result),
{
    let parsed = match json::parse_json(payload) {
        Some(parsed) => parsed,
        None => {
            return Json::Text(payload.to_string());
        },
    };
    let nested: Option<Json> = match meta::content_of(&parsed) {
        Some(items) => if items.len() > 0 {
            assert(json::trees(items@)[0] == items@[0].tree());
            match meta::text_of_item(&items[0]) {
                Some(s) => match json::parse_json(s) {
                    Some(value) => Some(value),
                    None => Some(Json::Text(s.to_string())),
                },
                None => None,
            }
        } else {
            None
        },
        None => None,
    };
    let whole = match nested {
        Some(value) => value,
        None => parsed,
    };
    unwrap_value(whole, unwrap_result)
}

/// An object that holds an error.
pub open spec fn error_object(reason: Seq<char>) -> JsonTree {
    JsonTree::Object(seq![("error"@, JsonTree::Text(reason))])
}

/// An object that holds an error.
pub fn error_json(reason: String) -> (r: Json)
    ensures
        r.tree() == error_object(reason@),
{
    let ms: Vec<(String, Json)> = vec![("error".to_string(), Json::Text(reason))];
    proof {
        json::lemma_object_tree(ms);
        assert(json::members(ms@) =~= seq![("error"@, JsonTree::Text(reason@))]);
    }
    Json::Object(ms)
}

/// What the proxy gave for a call.
pub open spec fn result_view(result: ProxyResult) -> Result<Seq<char>, ErrorView> {
    match result {
        Ok(payload) => Ok(payload@),
        Err(error) => Err(error@),
    }
}

/// What stands in the results for one item: the value of its answer or an error
/// in its place. A frozen scope fails the batch.
pub open spec fn item_result(
    plural: Seq<char>,
    unwrap_result: bool,
    item: JsonTree,
    reply: Option<Result<Seq<char>, ErrorView>>,
) -> Result<JsonTree, ErrorView> {
    match (item.text(), reply) {
        (Some(_), Some(Ok(payload))) => Ok(inner(payload, unwrap_result)),
        (Some(_), Some(Err(ErrorView::Frozen { scope, retry_after_seconds }))) => Err(
            ErrorView::Frozen { scope, retry_after_seconds },
        ),
        (Some(_), Some(Err(error))) => Ok(error_object(error.message())),
        _ => Ok(error_object(not_a_text(plural))),
    }
}

/// What stands in the results for each item.
pub open spec fn item_results(
    plural: Seq<char>,
    unwrap_result: bool,
    items: Seq<JsonTree>,
    replies: Seq<Option<ProxyResult>>,
) -> Seq<Result<JsonTree, ErrorView>> {
    Seq::new(
        items.len(),
        |i: int|
            item_result(
                plural,
                unwrap_result,
                items[i],
                match replies[i] {
                    Some(reply) => Some(result_view(reply)),
                    None => None,
                },
            ),
    )
}

/// The first error among some results.
pub open spec fn first_error(results: Seq<Result<JsonTree, ErrorView>>) -> Option<ErrorView>
    decreases results.len(),
{
    if results.len() == 0 {
        None
    } else {
        match first_error(results.drop_last()) {
            Some(error) => Some(error),
            None => match results.last() {
                Ok(_) => None,
                Err(error) => Some(error),
            },
        }
    }
}

/// The object with all results.
pub open spec fn results_object(results: Seq<Result<JsonTree, ErrorView>>) -> JsonTree {
    JsonTree::Object(
        seq![
            (
                "results"@,
                JsonTree::Array(Seq::new(results.len(), |i: int| results[i]->Ok_0)),
            ),
        ],
    )
}

/// Put the replies to the calls of a batch together, in the order of the names:
/// `{"results":[..]}`. There is one reply for each item that is a text, and none
/// for the others. An item that is no text, and one whose call failed, has an
/// error in its place; where a call was refused because its scope is frozen, that
/// is the error of the batch. Plain results are what the text parses to, and tame
/// ones keep their shape in it.
pub fn handle_batch(tool: &str, args: &Json, replies: Vec<Option<ProxyResult>>) -> (r: Result<
    String,
    ProxyError,
>)
    requires
        batch_of(tool@, args.tree()) matches Some((plural, _, _)) ==> {
            let items = items_under(args.tree(), plural)->0;
            &&& replies@.len() == items.len()
            &&& forall|i: int|
                0 <= i < items.len() ==> ((#[trigger] replies@[i]) is Some <==> items[i].text() is Some)
        },
    ensures
        match batch_of(tool@, args.tree()) {
            Some((plural, _, unwrap_result)) => {
                let items = items_under(args.tree(), plural)->0;
                let results = item_results(plural, unwrap_result, items, replies@);
                match first_error(results) {
                    Some(error) => r matches Err(e) && e@ == error,
                    None => {
                        &&& r is Ok
                        &&& r->Ok_0@ == meta::printed(results_object(results))
                        &&& json::plain(results_object(results), json::nesting_limit())
                            ==> json::json_parsed(r->Ok_0@) == Some(
                            results_object(results).sorted(),
                        )
                        &&& meta::reads_back(results_object(results))
                    },
                }
            },
            None => r matches Err(e) && e@ == no_batch(),
        },
{
    let (plural, unwrap_result) = match detect_batch(tool, args) {
        Some((plural, _, unwrap_result)) => (plural, unwrap_result),
        None => {
            return Err(
                ProxyError::Internal(
                    "handle_batch вызван не для батчевого инструмента".to_string(),
                ),
            );
        },
    };
    let ghost items = items_under(args.tree(), plural@)->0;
    let ghost results = item_results(plural@, unwrap_result, items, replies@);
    let ghost all = replies@;
    let mut out: Vec<Json> = Vec::new();
    assert(first_error(results.take(0)) is None);
    for reply in it: replies
        invariant
            it.seq() == all,
            all.len() == items.len(),
            0 <= it.index() <= all.len(),
            forall|i: int|
                0 <= i < items.len() ==> ((#[trigger] all[i]) is Some <==> items[i].text() is Some),
            results == item_results(plural@, unwrap_result, items, all),
            batch_of(tool@, args.tree()) matches Some((p, _, u)) && p == plural@ && u
                == unwrap_result,
            items == items_under(args.tree(), plural@)->0,
            all == replies@,
            first_error(results.take(it.index())) is None,
            out@.len() == it.index(),
            forall|i: int|
                0 <= i < out@.len() ==> Ok::<JsonTree, ErrorView>((#[trigger] out@[i]).tree())
                    == results[i],
    {
        let ghost k = it.index();
        let ghost part = results.take(k + 1);
        assert(part.drop_last() =~= results.take(k));
        assert(part.last() == results[k]);
        assert(all[k] is Some <==> items[k].text() is Some);
        let value: Json = match reply {
            Some(Ok(payload)) => inner_value(payload.as_str(), unwrap_result),
            Some(Err(error)) => match error {
                ProxyError::Frozen { scope, retry_after_seconds } => {
                    let failure = ProxyError::Frozen { scope, retry_after_seconds };
                    proof {
                        assert(first_error(part) == Some(failure@));
                        lemma_first_error_stays(results, k + 1);
                    }
                    return Err(failure);
                },
                other => error_json(other.message()),
            },
            None => error_json(not_a_text_message(plural)),
        };
        assert(Ok::<JsonTree, ErrorView>(value.tree()) == results[k]);
        out.push(value);
    }
    assert(results.take(results.len() as int) =~= results);
    let list = Json::Array(out);
    let ms: Vec<(String, Json)> = vec![("results".to_string(), list)];
    proof {
        json::lemma_array_tree(out);
        json::lemma_object_tree(ms);
        let values = Seq::new(results.len(), |i: int| results[i]->Ok_0);
        assert(json::trees(out@) =~= values);
        assert(json::members(ms@) =~= seq![("results"@, JsonTree::Array(values))]);
    }
    Ok(json::print_json(&Json::Object(ms)))
}

/// The first error among some results is the first one among more of them.
proof fn lemma_first_error_stays(results: Seq<Result<JsonTree, ErrorView>>, k: int)
    requires
        0 <= k <= results.len(),
        first_error(results.take(k)) is Some,
    ensures
        first_error(results) == first_error(results.take(k)),
    decreases results.len() - k,
{
    if k < results.len() {
        assert(results.take(k + 1).drop_last() =~= results.take(k));
        lemma_first_error_stays(results, k + 1);
    } else {
        assert(results.take(k) =~= results);
    }
}

/// What is found in the arguments of the call for one name.
proof fn lemma_sub_args_member(
    ms: json::Members,
    plural: Seq<char>,
    singular: Seq<char>,
    name: Seq<char>,
    n: Seq<char>,
)
    ensures
        sub_args(JsonTree::Object(ms), plural, singular, name).member(n) == if n == singular {
            Some(JsonTree::Text(name))
        } else if n == plural {
            None
        } else {
            json::find_member(ms, n)
        },
{
    let template = json::without_member(ms, plural);
    let rest = json::without_member(template, singular);
    let out = rest.push((singular, JsonTree::Text(name)));
    meta::lemma_without_member(ms, plural, n);
    meta::lemma_without_member(template, singular, n);
    json::lemma_last_index(rest, n);
    assert(out.drop_last() =~= rest);
}

/// Arguments in which the same is found under every name have the same scope.
proof fn lemma_scope_by_members(names: Seq<Seq<char>>, a: JsonTree, b: JsonTree)
    requires
        forall|n: Seq<char>| #[trigger] a.member(n) == b.member(n),
    ensures
        proxy::scope_of(names, a) == proxy::scope_of(names, b),
    decreases names.len(),
{
    if names.len() > 0 {
        assert(a.member(names[0]) == b.member(names[0]));
        lemma_scope_by_members(names.drop_first(), a, b);
    }
}

/// A call for one name out of many is to the proxy the same as that call on its
/// own, in whatever order its arguments stand: it has the same key, so each finds
/// what the other left in the cache.
pub proof fn law_batch_and_single_calls_share_the_cache(
    v: proxy::ProxyView,
    tool: Seq<char>,
    many: json::Members,
    plural: Seq<char>,
    singular: Seq<char>,
    name: Seq<char>,
    single: json::Members,
    bypass: bool,
    now: crate::clock::Moment,
)
    requires
        forall|n: Seq<char>| #[trigger]
            json::find_member(single, n) == if n == singular {
                Some(JsonTree::Text(name))
            } else if n == plural {
                None
            } else {
                json::find_member(many, n)
            },
    ensures
        proxy::handle_step(
            v,
            tool,
            sub_args(JsonTree::Object(many), plural, singular, name),
            bypass,
            now,
        ) == proxy::handle_step(v, tool, JsonTree::Object(single), bypass, now),
{
    let sub = sub_args(JsonTree::Object(many), plural, singular, name);
    let one = JsonTree::Object(single);
    let x = sub->Object_0;
    assert forall|n: Seq<char>| #[trigger] sub.member(n) == one.member(n) by {
        lemma_sub_args_member(many, plural, singular, name, n);
        assert(json::find_member(single, n) == one.member(n));
    }
    lemma_scope_by_members(v.scope_args, sub, one);
    json::lemma_sorted_members(x);
    json::lemma_sorted_members(single);
    assert forall|n: Seq<char>| #[trigger]
        json::find_member(json::sorted_members(x), n) == json::find_member(
            json::sorted_members(single),
            n,
        ) by {
        assert(sub.member(n) == one.member(n));
    }
    json::lemma_in_order_unique(json::sorted_members(x), json::sorted_members(single));
    assert(sub.sorted() == one.sorted());
}

/// Where no argument that holds the scope is the list of names or its single
/// form, each call of a batch has the scope of the batch.
pub proof fn law_calls_of_a_batch_keep_its_scope(
    names: Seq<Seq<char>>,
    args: JsonTree,
    plural: Seq<char>,
    singular: Seq<char>,
    name: Seq<char>,
)
    requires
        !names.contains(plural),
        !names.contains(singular),
    ensures
        proxy::scope_of(names, sub_args(args, plural, singular, name)) == proxy::scope_of(
            names,
            args,
        ),
    decreases names.len(),
{
    if names.len() > 0 {
        let rest = names.drop_first();
        assert(names.contains(names[0]));
        assert forall|n: Seq<char>| rest.contains(n) implies names.contains(n) by {
            let i = choose|i: int| 0 <= i < rest.len() && rest[i] == n;
            assert(names[i + 1] == n);
        }
        match args {
            JsonTree::Object(ms) => {
                lemma_sub_args_member(ms, plural, singular, name, names[0]);
            },
            _ => {},
        }
        law_calls_of_a_batch_keep_its_scope(rest, args, plural, singular, name);
    }
}

/// Under the same condition each call of a batch is refused if and only if the
/// batch is, and with the same error.
pub proof fn law_calls_of_a_batch_are_refused_with_it(
    v: proxy::ProxyView,
    tool: Seq<char>,
    args: JsonTree,
    plural: Seq<char>,
    singular: Seq<char>,
    name: Seq<char>,
    bypass: bool,
    now: crate::clock::Moment,
)
    requires
        batch_of(tool, args) matches Some((p, s, _)) && p == plural && s == singular,
        !v.scope_args.contains(plural),
        !v.scope_args.contains(singular),
    ensures
        ({
            let action = proxy::handle_step(
                v,
                tool,
                sub_args(args, plural, singular, name),
                bypass,
                now,
            ).1;
            match proxy::open_batch_step(v, tool, args, now) {
                Ok(_) => !(action is Refuse),
                Err(error) => action == proxy::ActionView::Refuse(error),
            }
        }),
{
    law_calls_of_a_batch_keep_its_scope(v.scope_args, args, plural, singular, name);
}

/// Whether the call for an item was refused because its scope is frozen.
pub open spec fn is_frozen_reply(reply: Option<ProxyResult>) -> bool {
    match reply {
        Some(result) => match result_view(result) {
            Ok(_) => false,
            Err(error) => error is Frozen,
        },
        None => false,
    }
}

/// Where the first error among some results stands, if there is one.
proof fn lemma_first_error(results: Seq<Result<JsonTree, ErrorView>>)
    ensures
        match first_error(results) {
            Some(error) => exists|i: int|
                0 <= i < results.len() && #[trigger] results[i] == Err::<JsonTree, ErrorView>(error)
                    && forall|j: int| 0 <= j < i ==> (#[trigger] results[j]) is Ok,
            None => forall|i: int| 0 <= i < results.len() ==> (#[trigger] results[i]) is Ok,
        },
    decreases results.len(),
{
    if results.len() > 0 {
        let head = results.drop_last();
        let last = results.len() - 1;
        lemma_first_error(head);
        match first_error(head) {
            Some(error) => {
                let i = choose|i: int|
                    0 <= i < head.len() && #[trigger] head[i] == Err::<JsonTree, ErrorView>(error)
                        && forall|j: int| 0 <= j < i ==> (#[trigger] head[j]) is Ok;
                assert(results[i] == Err::<JsonTree, ErrorView>(error));
                assert forall|j: int| 0 <= j < i implies (#[trigger] results[j]) is Ok by {
                    assert(head[j] is Ok);
                }
            },
            None => {
                assert forall|j: int| 0 <= j < last implies (#[trigger] results[j]) is Ok by {
                    assert(head[j] is Ok);
                }
                assert(results[last] == results.last());
            },
        }
    }
}

/// A batch answers each item as the call for that one name would. An item that is
/// a text leads to one call; the answer of that call is the result of the item,
/// and its error stands in the place of one. An item that is no text leads to no
/// call and has an error in its place. The results stand in the order of the
/// items. Only where a call was refused because its scope is frozen the batch
/// fails, with the error of the first such call.
pub proof fn law_batch_answers_each_item(
    tool: Seq<char>,
    args: JsonTree,
    plural: Seq<char>,
    singular: Seq<char>,
    unwrap_result: bool,
    replies: Seq<Option<ProxyResult>>,
)
    requires
        batch_of(tool, args) == Some((plural, singular, unwrap_result)),
        split_of(tool, args) matches Ok(calls) && replies.len() == calls.len() && forall|i: int|
            0 <= i < calls.len() ==> ((#[trigger] replies[i]) is Some <==> calls[i] is Call),
    ensures
        ({
            let items = items_under(args, plural)->0;
            let calls = split_of(tool, args)->Ok_0;
            let results = item_results(plural, unwrap_result, items, replies);
            &&& calls.len() == items.len()
            &&& results.len() == items.len()
            &&& forall|i: int|
                0 <= i < items.len() ==> match #[trigger] calls[i] {
                    SubCallView::Call(sub) => {
                        &&& items[i].text() is Some
                        &&& sub == sub_args(args, plural, singular, items[i].text()->0)
                        &&& results[i] == match result_view(replies[i]->0) {
                            Ok(payload) => Ok(inner(payload, unwrap_result)),
                            Err(error) => if error is Frozen {
                                Err(error)
                            } else {
                                Ok(error_object(error.message()))
                            },
                        }
                    },
                    SubCallView::Reject(reason) => {
                        &&& items[i].text() is None
                        &&& reason == not_a_text(plural)
                        &&& results[i] == Ok::<JsonTree, ErrorView>(error_object(reason))
                    },
                }
            &&& match first_error(results) {
                Some(error) => exists|i: int|
                    0 <= i < items.len() && is_frozen_reply(#[trigger] replies[i])
                        && result_view(replies[i]->0) == Err::<Seq<char>, ErrorView>(error)
                        && forall|j: int| 0 <= j < i ==> !is_frozen_reply(#[trigger] replies[j]),
                None => {
                    &&& forall|i: int|
                        0 <= i < items.len() ==> !is_frozen_reply(#[trigger] replies[i])
                    &&& results_object(results).member("results"@) == Some(
                        JsonTree::Array(Seq::new(items.len(), |i: int| results[i]->Ok_0)),
                    )
                },
            }
        }),
{
    let items = items_under(args, plural)->0;
    let calls = split_of(tool, args)->Ok_0;
    let results = item_results(plural, unwrap_result, items, replies);
    assert forall|i: int| 0 <= i < items.len() implies (calls[i] is Call <==> items[i].text() is Some)
        && (replies[i] is Some <==> calls[i] is Call) && ((#[trigger] results[i]) is Err
        <==> is_frozen_reply(replies[i])) by {}
    lemma_first_error(results);
    match first_error(results) {
        Some(error) => {
            let i = choose|i: int|
                0 <= i < results.len() && #[trigger] results[i] == Err::<JsonTree, ErrorView>(error)
                    && forall|j: int| 0 <= j < i ==> (#[trigger] results[j]) is Ok;
            assert(is_frozen_reply(replies[i]));
            assert forall|j: int| 0 <= j < i implies !is_frozen_reply(#[trigger] replies[j]) by {
                assert(results[j] is Ok);
            }
        },
        None => {
            assert forall|j: int| 0 <= j < items.len() implies !is_frozen_reply(
                #[trigger] replies[j],
            ) by {
                assert(results[j] is Ok);
            }
        },
    }
}

/// A call is one for many names if and only if its tool takes a list and the list
/// is there: `names` for functions and classes, `full_names` for the structure of an
/// object, whose results are taken out of their wrapper.
pub proof fn law_tools_that_take_lists(tool: Seq<char>, args: JsonTree)
    ensures
        tool == "get_function"@ || tool == "get_class"@ ==> batch_of(tool, args) == if args.member(
            "names"@,
        ) matches Some(JsonTree::Array(_)) {
            Some(("names"@, "name"@, false))
        } else {
            None
        },
        tool == "get_object_structure"@ ==> batch_of(tool, args) == if args.member(
            "full_names"@,
        ) matches Some(JsonTree::Array(_)) {
            Some(("full_names"@, "full_name"@, true))
        } else {
            None
        },
        tool != "get_function"@ && tool != "get_class"@ && tool != "get_object_structure"@
            ==> batch_of(tool, args) is None,
{
    reveal_strlit("get_function");
    reveal_strlit("get_class");
    reveal_strlit("get_object_structure");
    assert("get_function"@.len() == 12 && "get_class"@.len() == 9);
    assert("get_object_structure"@.len() == 20);
}

/// The call for one name has that name in the place of the list, and every other
/// argument of the whole call.
pub proof fn law_call_for_one_name_keeps_the_rest(
    ms: json::Members,
    plural: Seq<char>,
    singular: Seq<char>,
    name: Seq<char>,
    n: Seq<char>,
)
    requires
        plural != singular,
    ensures
        ({
            let sub = sub_args(JsonTree::Object(ms), plural, singular, name);
            &&& sub.member(singular) == Some(JsonTree::Text(name))
            &&& sub.member(plural) is None
            &&& n != singular && n != plural ==> sub.member(n) == JsonTree::Object(ms).member(n)
        }),
{
    lemma_sub_args_member(ms, plural, singular, name, singular);
    lemma_sub_args_member(ms, plural, singular, name, plural);
    lemma_sub_args_member(ms, plural, singular, name, n);
}

/// A call that is not one for many names is not split.
pub proof fn law_other_calls_are_not_split(tool: Seq<char>, args: JsonTree)
    requires
        batch_of(tool, args) is None,
    ensures
        split_of(tool, args) matches Err(error) && error is Internal,
{
}

/// A list is split into as many calls as it has items, in their order: a call with
/// the name for an item that is a text, an error for any other.
pub proof fn law_list_is_split_item_by_item(
    tool: Seq<char>,
    args: JsonTree,
    plural: Seq<char>,
    singular: Seq<char>,
    unwrap_result: bool,
    items: Seq<JsonTree>,
    i: int,
)
    requires
        batch_of(tool, args) == Some((plural, singular, unwrap_result)),
        args.member(plural) == Some(JsonTree::Array(items)),
        0 <= i < items.len(),
        plural != singular,
    ensures
        split_of(tool, args) matches Ok(calls) && {
            &&& calls.len() == items.len()
            &&& match (items[i], calls[i]) {
                (JsonTree::Text(name), SubCallView::Call(sub)) => sub.member(singular) == Some(
                    JsonTree::Text(name),
                ) && sub.member(plural) is None,
                (JsonTree::Text(_), _) => false,
                (_, SubCallView::Reject(_)) => true,
                (_, SubCallView::Call(_)) => false,
            }
        },
{
    match items[i] {
        JsonTree::Text(name) => {
            lemma_sub_args_member(args->Object_0, plural, singular, name, singular);
            lemma_sub_args_member(args->Object_0, plural, singular, name, plural);
        },
        _ => {},
    }
}

/// The element for an MCP result depends on the JSON text nested in it only: it is
/// the element for that text on its own. A nested text that is no JSON is the
/// element itself.
pub proof fn law_element_depends_on_the_nested_json(
    payload: Seq<char>,
    t: JsonTree,
    items: Seq<JsonTree>,
    s: Seq<char>,
    unwrap_result: bool,
)
    requires
        json::json_parsed(payload) == Some(t),
        t.member("content"@) == Some(JsonTree::Array(items)),
        items.len() > 0,
        items[0].member("text"@) == Some(JsonTree::Text(s)),
    ensures
        json::json_parsed(s) matches Some(value) ==> value.member("content"@) is None ==> inner(
            payload,
            unwrap_result,
        ) == inner(s, unwrap_result),
        json::json_parsed(s) is None ==> inner(payload, unwrap_result) == JsonTree::Text(s),
{
}

/// The element for a JSON value: where the tool unwraps its results and there is a
/// member `result`, the value of that member; else the value with every member but
/// `_meta`. That holds of a value on its own and of one nested in an MCP result.
pub proof fn law_element_is_the_value_without_its_wrapper(
    payload: Seq<char>,
    t: JsonTree,
    items: Seq<JsonTree>,
    s: Seq<char>,
    value: JsonTree,
    unwrap_result: bool,
    name: Seq<char>,
)
    requires
        json::json_parsed(payload) == Some(t),
        ({
            ||| value == t && !(t.member("content"@) matches Some(JsonTree::Array(list))
                && list.len() > 0 && list[0].member("text"@) matches Some(JsonTree::Text(_)))
            ||| {
                &&& t.member("content"@) == Some(JsonTree::Array(items))
                &&& items.len() > 0
                &&& items[0].member("text"@) == Some(JsonTree::Text(s))
                &&& json::json_parsed(s) == Some(value)
            }
        }),
        name != "_meta"@,
    ensures
        unwrap_result ==> (value.member("result"@) matches Some(result) ==> inner(
            payload,
            unwrap_result,
        ) == result),
        !unwrap_result || value.member("result"@) is None ==> {
            &&& inner(payload, unwrap_result).member(name) == value.member(name)
            &&& inner(payload, unwrap_result).member("_meta"@) is None
            &&& !(value is Object) ==> inner(payload, unwrap_result) == value
            &&& value is Object ==> inner(payload, unwrap_result) is Object
        },
{
    match value {
        JsonTree::Object(ms) => {
            reveal_strlit("_meta");
            reveal_strlit("result");
            assert("_meta"@.len() == 5 && "result"@.len() == 6);
            meta::lemma_without_member(ms, "_meta"@, "result"@);
            meta::lemma_without_member(ms, "_meta"@, name);
            meta::lemma_without_member(ms, "_meta"@, "_meta"@);
        },
        _ => {},
    }
}

/// The element for an answer that is no JSON is its text.
pub proof fn law_element_for_other_text_is_that_text(payload: Seq<char>, unwrap_result: bool)
    requires
        json::json_parsed(payload) is None,
    ensures
        inner(payload, unwrap_result) == JsonTree::Text(payload),
{
}

/// An error in the place of a result is an object with the reason under `error`
/// and nothing else, and all results stand under `results`, which is all there is.
pub proof fn law_results_and_errors_stand_under_their_names(
    reason: Seq<char>,
    results: Seq<Result<JsonTree, ErrorView>>,
    name: Seq<char>,
)
    ensures
        error_object(reason).member("error"@) == Some(JsonTree::Text(reason)),
        name != "error"@ ==> error_object(reason).member(name) is None,
        results_object(results).member("results"@) matches Some(JsonTree::Array(list))
            && list.len() == results.len() && forall|i: int|
            0 <= i < results.len() && results[i] is Ok ==> #[trigger] list[i] == results[i]->Ok_0,
        name != "results"@ ==> results_object(results).member(name) is None,
{
    let error = error_object(reason)->Object_0;
    json::lemma_listed_member(error, 0);
    json::lemma_last_index(error, name);
    let all = results_object(results)->Object_0;
    json::lemma_listed_member(all, 0);
    json::lemma_last_index(all, name);
}

/// The error for an item that is no text names the list that it stands in.
pub proof fn law_error_names_the_list(plural: Seq<char>)
    ensures
        plural.is_prefix_of(not_a_text(plural)),
        not_a_text(plural).len() > plural.len(),
{
    reveal_strlit(": каждый элемент должен быть строкой");
    assert(not_a_text(plural).subrange(0, plural.len() as int) =~= plural);
}

} // verus!
