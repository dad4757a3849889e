//! The service field `_meta` of a backend's answer.
//!
//! `_meta` names the files that an answer was built on (`dependent_files`) and
//! their modification times in the backend's index (`file_mtimes`). An answer is
//! either a plain object, with `_meta` at its top, or the result of an MCP tool
//! call, `{"content":[{"type":"text","text":"<JSON>"}]}`, with `_meta` inside the
//! nested JSON text and possibly in `structuredContent` as well. The field is
//! meant for the proxy only and is taken out of what a client gets.

use crate::json;
use crate::json::{Json, JsonTree};
use crate::text;
use vstd::hash_map::StringHashMap;
use vstd::prelude::*;

verus! {

/// The member called `name` of `_meta`.
pub open spec fn meta_member(t: JsonTree, name: Seq<char>) -> Option<JsonTree> {
    match t.member("_meta"@) {
        Some(meta) => meta.member(name),
        None => None,
    }
}

/// The texts among `items`, in order.
pub open spec fn text_items(items: Seq<JsonTree>) -> Seq<Seq<char>>
    decreases items.len(),
{
    if items.len() == 0 {
        Seq::empty()
    } else {
        match items.last().text() {
            Some(s) => text_items(items.drop_last()).push(s),
            None => text_items(items.drop_last()),
        }
    }
}

/// The files listed in `_meta.dependent_files`, if that is an array.
pub open spec fn files_in(t: JsonTree) -> Option<Seq<Seq<char>>> {
    match meta_member(t, "dependent_files"@) {
        Some(files) => match files.items() {
            Some(items) => Some(text_items(items)),
            None => None,
        },
        None => None,
    }
}

/// The members whose values are integers of 64 bits.
pub open spec fn whole_members(ms: json::Members) -> Map<Seq<char>, i64>
    decreases ms.len(),
{
    if ms.len() == 0 {
        Map::empty()
    } else {
        match ms.last().1.whole() {
            Some(i) => whole_members(ms.drop_last()).insert(ms.last().0, i),
            None => whole_members(ms.drop_last()),
        }
    }
}

/// The modification times in `_meta.file_mtimes`, if that is an object.
pub open spec fn mtimes_in(t: JsonTree) -> Option<Map<Seq<char>, i64>> {
    match meta_member(t, "file_mtimes"@) {
        Some(JsonTree::Object(ms)) => Some(whole_members(ms)),
        _ => None,
    }
}

/// Whether a content item is of type `text`.
pub open spec fn is_text_item(item: JsonTree) -> bool {
    match item.member("type"@) {
        Some(kind) => kind.text() == Some("text"@),
        None => false,
    }
}

/// The first content item of type `text`.
pub open spec fn first_text_item(items: Seq<JsonTree>) -> Option<JsonTree>
    decreases items.len(),
{
    if items.len() == 0 {
        None
    } else if is_text_item(items[0]) {
        Some(items[0])
    } else {
        first_text_item(items.drop_first())
    }
}

/// The member `text` of a content item, if it is a text.
pub open spec fn item_text(item: JsonTree) -> Option<Seq<char>> {
    match item.member("text"@) {
        Some(t) => t.text(),
        None => None,
    }
}

/// The content items of an MCP result.
pub open spec fn content_items(t: JsonTree) -> Option<Seq<JsonTree>> {
    match t.member("content"@) {
        Some(content) => content.items(),
        None => None,
    }
}

/// The first text of an MCP result.
pub open spec fn nested_text(t: JsonTree) -> Option<Seq<char>> {
    match content_items(t) {
        Some(items) => match first_text_item(items) {
            Some(item) => item_text(item),
            None => None,
        },
        None => None,
    }
}

/// What the first text of an MCP result parses to.
pub open spec fn nested(t: JsonTree) -> Option<JsonTree> {
    match nested_text(t) {
        Some(s) => json::json_parsed(s),
        None => None,
    }
}

/// What a value says, if there is one.
pub open spec fn tree_of(j: Option<Json>) -> Option<JsonTree> {
    match j {
        Some(j) => Some(j.tree()),
        None => None,
    }
}

/// The files that an answer was built on: those at its top, else those in its
/// nested JSON, else none.
pub open spec fn answer_files(t: JsonTree, inner: Option<JsonTree>) -> Seq<Seq<char>> {
    match files_in(t) {
        Some(files) => files,
        None => match inner {
            Some(inner) => match files_in(inner) {
                Some(files) => files,
                None => Seq::empty(),
            },
            None => Seq::empty(),
        },
    }
}

/// The index times of files that an answer reports: those at its top, else those
/// in its nested JSON, else none.
pub open spec fn answer_mtimes(t: JsonTree, inner: Option<JsonTree>) -> Map<Seq<char>, i64> {
    match mtimes_in(t) {
        Some(mtimes) => mtimes,
        None => match inner {
            Some(inner) => match mtimes_in(inner) {
                Some(mtimes) => mtimes,
                None => Map::empty(),
            },
            None => Map::empty(),
        },
    }
}

/// The files that the answer `payload` was built on. A text that is no JSON has none.
pub open spec fn dependent_files(payload: Seq<char>) -> Seq<Seq<char>> {
    match json::json_parsed(payload) {
        Some(t) => answer_files(t, nested(t)),
        None => Seq::empty(),
    }
}

/// The index times of files that the answer `payload` reports. A text that is no
/// JSON has none.
pub open spec fn file_mtimes(payload: Seq<char>) -> Map<Seq<char>, i64> {
    match json::json_parsed(payload) {
        Some(t) => answer_mtimes(t, nested(t)),
        None => Map::empty(),
    }
}

/// The compact text of a value.
pub open spec fn printed(t: JsonTree) -> Seq<char> {
    json::json_printed(t.sorted())
}

/// Whether this is an object with a member `_meta`.
pub open spec fn has_meta(t: JsonTree) -> bool {
    t.member("_meta"@) is Some
}

/// The value without a member `_meta` at its top.
pub open spec fn drop_meta(t: JsonTree) -> JsonTree {
    match t {
        JsonTree::Object(ms) => JsonTree::Object(json::without_member(ms, "_meta"@)),
        _ => t,
    }
}

/// What the text of a content item parses to.
pub open spec fn item_value(item: JsonTree) -> Option<JsonTree> {
    match item_text(item) {
        Some(s) => json::json_parsed(s),
        None => None,
    }
}

/// The JSON value inside the text of a content item, where it has a `_meta`.
pub open spec fn item_meta(item: JsonTree) -> Option<JsonTree> {
    match item_value(item) {
        Some(inner) => if has_meta(inner) {
            Some(inner)
        } else {
            None
        },
        None => None,
    }
}

/// An object with a new value for a member that it has.
pub open spec fn replace_member(t: JsonTree, name: Seq<char>, value: JsonTree) -> JsonTree {
    match t {
        JsonTree::Object(ms) => JsonTree::Object(json::with_value(ms, name, value)),
        _ => t,
    }
}

/// A content item without `_meta` in the JSON value `inner` inside its text.
pub open spec fn strip_item_of(item: JsonTree, inner: Option<JsonTree>) -> JsonTree {
    match inner {
        Some(inner) => if has_meta(inner) {
            replace_member(item, "text"@, JsonTree::Text(printed(drop_meta(inner))))
        } else {
            item
        },
        None => item,
    }
}

/// A content item without `_meta` in the JSON value inside its text.
pub open spec fn strip_item(item: JsonTree) -> JsonTree {
    strip_item_of(item, item_value(item))
}

/// Content items without `_meta` in the JSON values inside their texts.
pub open spec fn strip_items(items: Seq<JsonTree>) -> Seq<JsonTree> {
    Seq::new(items.len(), |i: int| strip_item(items[i]))
}

/// An answer without `_meta`, `structuredContent` aside: in an MCP result
/// `_meta` is taken out of the nested texts and its own top is left alone.
pub open spec fn strip_content(t: JsonTree) -> JsonTree {
    match content_items(t) {
        Some(items) => replace_member(t, "content"@, JsonTree::Array(strip_items(items))),
        None => drop_meta(t),
    }
}

/// Whether `strip_content` takes anything out.
pub open spec fn content_has_meta(t: JsonTree) -> bool {
    match content_items(t) {
        Some(items) => exists|i: int| 0 <= i < items.len() && item_meta(#[trigger] items[i]) is Some,
        None => has_meta(t),
    }
}

/// Whether `structuredContent` has a `_meta`.
pub open spec fn structured_has_meta(t: JsonTree) -> bool {
    match t.member("structuredContent"@) {
        Some(sc) => has_meta(sc),
        None => false,
    }
}

/// An answer without `_meta` in `structuredContent`.
pub open spec fn strip_structured(t: JsonTree) -> JsonTree {
    match t.member("structuredContent"@) {
        Some(sc) => if has_meta(sc) {
            replace_member(t, "structuredContent"@, drop_meta(sc))
        } else {
            t
        },
        None => t,
    }
}

/// An answer without `_meta`.
pub open spec fn strip_tree(t: JsonTree) -> JsonTree {
    strip_structured(strip_content(t))
}

/// Whether there is a `_meta` to take out of an answer.
pub open spec fn carries_meta(t: JsonTree) -> bool {
    content_has_meta(t) || structured_has_meta(strip_content(t))
}

/// The text of an answer as a client gets it: the same text where there is
/// nothing to take out or the text is no JSON.
pub open spec fn stripped(payload: Seq<char>) -> Seq<char> {
    match json::json_parsed(payload) {
        Some(t) => if carries_meta(t) {
            printed(strip_tree(t))
        } else {
            payload
        },
        None => payload,
    }
}

/// Whether the JSON values in an answer whose texts are written anew are tame: the
/// answer itself and the values inside the texts of its items.
pub open spec fn tame_answer(t: JsonTree) -> bool {
    &&& json::tame(strip_tree(t).sorted())
    &&& content_items(t) matches Some(items) ==> forall|i: int|
        0 <= i < items.len() ==> (item_meta(#[trigger] items[i]) matches Some(inner)
            ==> json::tame(drop_meta(inner).sorted()))
}

/// Whether a text, parsed, has a `_meta` where a backend puts one.
pub open spec fn text_carries_meta(text: Seq<char>) -> bool {
    match json::json_parsed(text) {
        Some(t) => content_has_meta(t) || structured_has_meta(t),
        None => false,
    }
}

/// Whether the text that is written for a value keeps its shape, if it is tame.
pub open spec fn reads_back(t: JsonTree) -> bool {
    json::tame(t.sorted()) ==> json::keeps_shape(t.sorted(), printed(t))
}

/// Whether the text that is written anew for an item keeps the shape of the value
/// that it is written for.
pub open spec fn item_reads_back(item: JsonTree) -> bool {
    item_meta(item) matches Some(inner) ==> reads_back(drop_meta(inner))
}

/// Whether the texts that are written anew for the items of an answer keep the
/// shapes of the values that they are written for.
pub open spec fn items_read_back(t: JsonTree) -> bool {
    content_items(t) matches Some(items) ==> forall|i: int|
        0 <= i < items.len() ==> (#[trigger] item_reads_back(items[i]))
}

/// Whether a text is a tame answer, or one out of which nothing is taken.
pub open spec fn tame_payload(payload: Seq<char>) -> bool {
    json::json_parsed(payload) matches Some(t) ==> carries_meta(t) ==> tame_answer(t)
}

/// Whether the texts that are written anew when `_meta` is taken out of a payload,
/// those of its items and its own, keep the shapes of the values that they are
/// written for.
pub open spec fn payload_reads_back(payload: Seq<char>) -> bool {
    json::json_parsed(payload) matches Some(t) ==> carries_meta(t) ==> {
        &&& items_read_back(t)
        &&& reads_back(strip_tree(t))
    }
}

/// Whether a payload is an MCP result with a `_meta` at its own top. That one
/// belongs to the protocol and is left in place.
pub open spec fn has_protocol_meta(payload: Seq<char>) -> bool {
    json::json_parsed(payload) matches Some(t) && has_meta(t) && content_items(t) is Some
}

/// The files listed in `_meta.dependent_files`, if that is an array.
pub fn meta_files(j: &Json) -> (r: Option<Vec<String>>)
    ensures
        match r {
            Some(files) => files_in(j.tree()) == Some(text::texts(files@)),
            None => files_in(j.tree()) is None,
        },
{
    let meta = match j.get("_meta") {
        Some(meta) => meta,
        None => {
            return None;
        },
    };
    let files = match meta.get("dependent_files") {
        Some(files) => files,
        None => {
            return None;
        },
    };
    let items = match files.as_array() {
        Some(items) => items,
        None => {
            return None;
        },
    };
    let ghost all = json::trees(items@);
    let mut out: Vec<String> = Vec::new();
    let mut i: usize = 0;
    assert(text::texts(out@) =~= text_items(all.take(0)));
    while i < items.len()
        invariant
            i <= items@.len(),
            all == json::trees(items@),
            text::texts(out@) == text_items(all.take(i as int)),
        decreases items@.len() - i,
    {
        assert(all.take(i + 1).drop_last() =~= all.take(i as int));
        let ghost before = out@;
        match items[i].as_str() {
            Some(s) => {
                out.push(s.to_string());
                assert(text::texts(out@) =~= text::texts(before).push(s@));
            },
            None => {},
        }
        i = i + 1;
    }
    assert(all.take(items@.len() as int) =~= all);
    Some(out)
}

/// The modification times in `_meta.file_mtimes`, if that is an object.
pub fn meta_mtimes(j: &Json) -> (r: Option<StringHashMap<i64>>)
    ensures
        match r {
            Some(mtimes) => mtimes_in(j.tree()) == Some(mtimes@),
            None => mtimes_in(j.tree()) is None,
        },
{
    let meta = match j.get("_meta") {
        Some(meta) => meta,
        None => {
            return None;
        },
    };
    let ms = match meta.get("file_mtimes") {
        Some(Json::Object(ms)) => ms,
        _ => {
            return None;
        },
    };
    proof {
        json::lemma_object_tree(*ms);
    }
    let ghost all = json::members(ms@);
    let mut out: StringHashMap<i64> = StringHashMap::new();
    let mut i: usize = 0;
    while i < ms.len()
        invariant
            i <= ms@.len(),
            all == json::members(ms@),
            out@ == whole_members(all.take(i as int)),
        decreases ms@.len() - i,
    {
        assert(all.take(i + 1).drop_last() =~= all.take(i as int));
        match ms[i].1.as_i64() {
            Some(m) => {
                out.insert(ms[i].0.clone(), m);
            },
            None => {},
        }
        i = i + 1;
    }
    assert(all.take(ms@.len() as int) =~= all);
    Some(out)
}

/// Whether a content item is of type `text`.
fn check_text_item(item: &Json) -> (r: bool)
    ensures
        r == is_text_item(item.tree()),
{
    match item.get("type") {
        Some(kind) => match kind.as_str() {
            Some(s) => text::text_eq(s, "text"),
            None => false,
        },
        None => false,
    }
}

/// The member `text` of a content item, if it is a text.
pub fn text_of_item(item: &Json) -> (r: Option<&str>)
    ensures
        match r {
            Some(s) => item_text(item.tree()) == Some(s@),
            None => item_text(item.tree()) is None,
        },
{
    match item.get("text") {
        Some(t) => t.as_str(),
        None => None,
    }
}

/// The content items of an MCP result.
pub fn content_of(j: &Json) -> (r: Option<&Vec<Json>>)
    ensures
        match r {
            Some(items) => content_items(j.tree()) == Some(json::trees(items@)),
            None => content_items(j.tree()) is None,
        },
{
    match j.get("content") {
        Some(content) => content.as_array(),
        None => None,
    }
}

/// The first text of an MCP result.
pub fn text_of_answer(j: &Json) -> (r: Option<&str>)
    ensures
        match r {
            Some(s) => nested_text(j.tree()) == Some(s@),
            None => nested_text(j.tree()) is None,
        },
{
    let items = match content_of(j) {
        Some(items) => items,
        None => {
            return None;
        },
    };
    let ghost all = json::trees(items@);
    let mut i: usize = 0;
    assert(all.skip(0) =~= all);
    while i < items.len()
        invariant
            i <= items@.len(),
            all == json::trees(items@),
            content_items(j.tree()) == Some(all),
            first_text_item(all) == first_text_item(all.skip(i as int)),
        decreases items@.len() - i,
    {
        assert(all.skip(i as int).drop_first() =~= all.skip(i + 1));
        if check_text_item(&items[i]) {
            return text_of_item(&items[i]);
        }
        i = i + 1;
    }
    None
}

/// What the first text of an MCP result parses to.
fn nested_json(j: &Json) -> (r: Option<Json>)
    ensures
        tree_of(r) == nested(j.tree()),
{
    match text_of_answer(j) {
        Some(s) => json::parse_json(s),
        None => None,
    }
}

/// The files that an answer was built on, out of what the answer and its nested
/// text parse to.
pub fn files_of_answer(j: &Json, inner: &Option<Json>) -> (r: Vec<String>)
    ensures
        text::texts(r@) == answer_files(j.tree(), tree_of(*inner)),
{
    match meta_files(j) {
        Some(files) => {
            return files;
        },
        None => {},
    }
    match inner {
        Some(inner) => match meta_files(inner) {
            Some(files) => {
                return files;
            },
            None => {},
        },
        None => {},
    }
    let none: Vec<String> = Vec::new();
    assert(text::texts(none@) =~= Seq::empty());
    none
}

/// The index times of files that an answer reports, out of what the answer and
/// its nested text parse to.
pub fn mtimes_of_answer(j: &Json, inner: &Option<Json>) -> (r: StringHashMap<i64>)
    ensures
        r@ == answer_mtimes(j.tree(), tree_of(*inner)),
{
    match meta_mtimes(j) {
        Some(mtimes) => {
            return mtimes;
        },
        None => {},
    }
    match inner {
        Some(inner) => match meta_mtimes(inner) {
            Some(mtimes) => {
                return mtimes;
            },
            None => {},
        },
        None => {},
    }
    StringHashMap::new()
}

/// The files that a backend's answer was built on. A backend that does not send
/// `_meta.dependent_files`, and a text that is no JSON, give none.
pub fn extract_dependent_files(payload: &str) -> (r: Vec<String>)
    ensures
        text::texts(r@) == dependent_files(payload@),
{
    match json::parse_json(payload) {
        Some(parsed) => files_of_answer(&parsed, &nested_json(&parsed)),
        None => {
            let none: Vec<String> = Vec::new();
            assert(text::texts(none@) =~= Seq::empty());
            none
        },
    }
}

/// The index times of files that a backend's answer reports in
/// `_meta.file_mtimes`. Without them, and for a text that is no JSON, there are none.
pub fn extract_file_mtimes(payload: &str) -> (r: StringHashMap<i64>)
    ensures
        r@ == file_mtimes(payload@),
{
    match json::parse_json(payload) {
        Some(parsed) => mtimes_of_answer(&parsed, &nested_json(&parsed)),
        None => StringHashMap::new(),
    }
}

/// A value without a member `_meta` at its top, and whether it had one.
pub fn without_meta(j: Json) -> (r: (Json, bool))
    ensures
        r.0.tree() == drop_meta(j.tree()),
        r.1 == has_meta(j.tree()),
{
    broadcast use json::lemma_object_tree;

    match j {
        Json::Object(ms) => {
            let (rest, found) = json::remove_member(ms, "_meta");
            (Json::Object(rest), found)
        },
        other => (other, false),
    }
}

/// An object with a new value for a member that it has.
fn with_new_member(j: Json, name: &str, value: Json) -> (r: Json)
    requires
        j.tree().member(name@) is Some,
    ensures
        r.tree() == replace_member(j.tree(), name@, value.tree()),
{
    broadcast use json::lemma_object_tree;

    match j {
        Json::Object(ms) => {
            let mut ms = ms;
            json::set_member(&mut ms, name, value);
            Json::Object(ms)
        },
        other => other,
    }
}

/// A content item without `_meta` in the JSON value that its text parses to, and
/// whether there was one.
pub fn strip_item_json(item: &Json, inner: Option<Json>) -> (r: (Json, bool))
    requires
        inner is Some ==> item_text(item.tree()) is Some,
    ensures
        r.0.tree() == strip_item_of(item.tree(), tree_of(inner)),
        r.1 == (inner is Some && has_meta(inner->0.tree())),
        r.1 ==> reads_back(drop_meta(inner->0.tree())),
{
    match inner {
        Some(inner) => {
            let (rest, found) = without_meta(inner);
            if found {
                let shown = json::print_json(&rest);
                (with_new_member(item.clone(), "text", Json::Text(shown)), true)
            } else {
                (item.clone(), false)
            }
        },
        None => (item.clone(), false),
    }
}

/// A content item without `_meta` in the JSON value inside its text, and
/// whether there was one.
fn strip_content_item(item: &Json) -> (r: (Json, bool))
    ensures
        r.0.tree() == strip_item(item.tree()),
        r.1 == (item_meta(item.tree()) is Some),
        item_reads_back(item.tree()),
{
    let inner = match text_of_item(item) {
        Some(s) => json::parse_json(s),
        None => None,
    };
    strip_item_json(item, inner)
}

/// An answer without `_meta`, `structuredContent` aside, and whether there was one.
pub fn strip_content_json(j: Json) -> (r: (Json, bool))
    ensures
        r.0.tree() == strip_content(j.tree()),
        r.1 == content_has_meta(j.tree()),
        items_read_back(j.tree()),
{
    let mut out: Vec<Json> = Vec::new();
    let mut found: bool = false;
    match content_of(&j) {
        Some(items) => {
            let ghost all = json::trees(items@);
            let mut i: usize = 0;
            while i < items.len()
                invariant
                    i <= items@.len(),
                    all == json::trees(items@),
                    out@.len() == i,
                    forall|k: int|
                        0 <= k < i ==> (#[trigger] out@[k]).tree() == strip_item(all[k]),
                    found == (exists|k: int| 0 <= k < i && item_meta(#[trigger] all[k]) is Some),
                    forall|k: int| 0 <= k < i ==> #[trigger] item_reads_back(all[k]),
                decreases items@.len() - i,
            {
                let (item, changed) = strip_content_item(&items[i]);
                assert(all[i as int] == items@[i as int].tree());
                found = found || changed;
                out.push(item);
                i = i + 1;
            }
            assert(json::trees(out@) =~= strip_items(all));
        },
        None => {
            return without_meta(j);
        },
    }
    proof {
        json::lemma_array_tree(out);
    }
    (with_new_member(j, "content", Json::Array(out)), found)
}

/// An answer without `_meta` in `structuredContent`, and whether there was one.
pub fn strip_structured_json(j: Json) -> (r: (Json, bool))
    ensures
        r.0.tree() == strip_structured(j.tree()),
        r.1 == structured_has_meta(j.tree()),
{
    let rest = match j.get("structuredContent") {
        Some(sc) => {
            let (rest, found) = without_meta(sc.clone());
            if found {
                Some(rest)
            } else {
                None
            }
        },
        None => None,
    };
    match rest {
        Some(rest) => (with_new_member(j, "structuredContent", rest), true),
        None => (j, false),
    }
}

/// An answer without `_meta`, and whether there was one.
pub fn strip_json(j: Json) -> (r: (Json, bool))
    ensures
        r.0.tree() == strip_tree(j.tree()),
        r.1 == carries_meta(j.tree()),
        items_read_back(j.tree()),
{
    let (partly, in_content) = strip_content_json(j);
    let (rest, in_structured) = strip_structured_json(partly);
    (rest, in_content || in_structured)
}

/// Take `_meta` out of a backend's answer, as a client gets it: out of the
/// texts nested in an MCP result or out of the top of a plain object, and out of
/// `structuredContent`. Where there is nothing to take out, and where the text is
/// no JSON, the text stays as it is. Where the answer without `_meta` is plain, its
/// text parses to it. There is nothing more to take out of the text of a tame
/// payload, once stripped, and it names no files, unless the protocol's own `_meta`
/// does. That is not stated of a payload that is not tame, whose text may read back
/// as something else than was written.
pub fn strip_meta(payload: &str) -> (r: String)
    ensures
        r@ == stripped(payload@),
        payload_reads_back(payload@),
        json::json_parsed(payload@) matches Some(t) ==> carries_meta(t) && json::plain(
            strip_tree(t),
            json::nesting_limit(),
        ) ==> json::json_parsed(r@) == Some(strip_tree(t).sorted()),
        tame_payload(payload@) ==> !text_carries_meta(r@) && stripped(r@) == r@,
        tame_payload(payload@) && !has_protocol_meta(payload@) ==> dependent_files(r@).len() == 0
            && file_mtimes(r@) == Map::<Seq<char>, i64>::empty(),
{
    let clean: String = match json::parse_json(payload) {
        Some(parsed) => {
            let (rest, found) = strip_json(parsed);
            if found {
                json::print_json(&rest)
            } else {
                payload.to_string()
            }
        },
        None => payload.to_string(),
    };
    proof {
        if tame_payload(payload@) {
            law_stripping_twice_is_stripping_once(payload@);
            if !has_protocol_meta(payload@) {
                law_stripped_payload_names_no_files(payload@);
            }
        }
    }
    clean
}

/// Where no item has a `_meta` inside its text and none stands at the top, an
/// answer names no files.
proof fn lemma_no_meta_names_no_files(t: JsonTree)
    requires
        !content_has_meta(t),
        content_items(t) is Some ==> !has_meta(t),
    ensures
        files_in(t) is None,
        mtimes_in(t) is None,
        nested(t) matches Some(inner) ==> files_in(inner) is None && mtimes_in(inner) is None,
{
    match content_items(t) {
        Some(items) => {
            lemma_first_text_item(items);
            match first_text_item(items) {
                Some(item) => {
                    let i = choose|i: int| 0 <= i < items.len() && items[i] == item;
                    assert(item_meta(items[i]) is None);
                },
                None => {},
            }
        },
        None => {},
    }
}

/// The first content item of type `text` is one of the items.
proof fn lemma_first_text_item(items: Seq<JsonTree>)
    ensures
        first_text_item(items) matches Some(item) ==> exists|i: int|
            0 <= i < items.len() && items[i] == item,
    decreases items.len(),
{
    if items.len() > 0 && !is_text_item(items[0]) {
        let rest = items.drop_first();
        lemma_first_text_item(rest);
        match first_text_item(rest) {
            Some(item) => {
                let i = choose|i: int| 0 <= i < rest.len() && rest[i] == item;
                assert(items[i + 1] == item);
            },
            None => {},
        }
    }
}

/// An answer out of which nothing is taken has no `_meta` where a backend puts one.
proof fn lemma_nothing_carried(t: JsonTree)
    ensures
        carries_meta(t) == (content_has_meta(t) || structured_has_meta(t)),
{
    reveal_strlit("_meta");
    reveal_strlit("content");
    reveal_strlit("structuredContent");
    lemma_strip_content_member(t, "structuredContent"@);
}

/// Taking `_meta` out of a tame payload twice is taking it out once: what a client
/// gets has no `_meta` left where a backend puts one. That the written texts keep
/// their shapes is what `strip_meta` gives.
pub proof fn law_stripping_twice_is_stripping_once(payload: Seq<char>)
    requires
        tame_payload(payload),
        payload_reads_back(payload),
    ensures
        !text_carries_meta(stripped(payload)),
        stripped(stripped(payload)) == stripped(payload),
{
    match json::json_parsed(payload) {
        Some(t) => {
            lemma_nothing_carried(t);
            if carries_meta(t) {
                match json::json_parsed(stripped(payload)) {
                    Some(parsed) => {
                        lemma_client_text_has_no_meta(t, parsed);
                        lemma_nothing_carried(parsed);
                    },
                    None => {},
                }
            }
        },
        None => {},
    }
}

/// What a client gets of a tame payload names no files that the answer was built
/// on and no times of theirs, unless the protocol's own `_meta` does. That the
/// written texts keep their shapes is what `strip_meta` gives.
pub proof fn law_stripped_payload_names_no_files(payload: Seq<char>)
    requires
        tame_payload(payload),
        payload_reads_back(payload),
        !has_protocol_meta(payload),
    ensures
        dependent_files(stripped(payload)) == Seq::<Seq<char>>::empty(),
        file_mtimes(stripped(payload)) == Map::<Seq<char>, i64>::empty(),
{
    match json::json_parsed(payload) {
        Some(t) => {
            lemma_nothing_carried(t);
            if carries_meta(t) {
                match json::json_parsed(stripped(payload)) {
                    Some(parsed) => {
                        lemma_client_text_has_no_meta(t, parsed);
                        lemma_no_meta_names_no_files(parsed);
                    },
                    None => {},
                }
            } else {
                lemma_no_meta_names_no_files(t);
            }
        },
        None => {},
    }
}

/// Values of one shape have `_meta` and texts in the same places.
proof fn lemma_same_shape_meta(a: JsonTree, b: JsonTree)
    requires
        json::same_shape(a, b),
    ensures
        has_meta(a) == has_meta(b),
        structured_has_meta(a) == structured_has_meta(b),
        item_text(a) == item_text(b),
        match (content_items(a), content_items(b)) {
            (Some(x), Some(y)) => x.len() == y.len() && forall|i: int|
                0 <= i < x.len() ==> json::same_shape(#[trigger] x[i], y[i]),
            (None, None) => true,
            _ => false,
        },
{
    json::lemma_same_shape_member(a, b, "_meta"@);
    json::lemma_same_shape_member(a, b, "text"@);
    json::lemma_same_shape_member(a, b, "content"@);
    json::lemma_same_shape_member(a, b, "structuredContent"@);
    match (a.member("structuredContent"@), b.member("structuredContent"@)) {
        (Some(x), Some(y)) => {
            json::lemma_same_shape_member(x, y, "_meta"@);
        },
        _ => {},
    }
}

/// Sorting plays no part in whether there is a `_meta`.
proof fn lemma_sorted_has_meta(t: JsonTree)
    ensures
        has_meta(t.sorted()) == has_meta(t),
        structured_has_meta(t.sorted()) == structured_has_meta(t),
        item_text(t.sorted()) == item_text(t),
        content_items(t.sorted()) == match content_items(t) {
            Some(items) => Some(json::sorted_items(items)),
            None => None,
        },
{
    json::law_sorting_keeps_members(t, "_meta"@);
    json::law_sorting_keeps_members(t, "text"@);
    json::law_sorting_keeps_members(t, "content"@);
    json::law_sorting_keeps_members(t, "structuredContent"@);
    match t.member("structuredContent"@) {
        Some(sc) => {
            json::law_sorting_keeps_members(sc, "_meta"@);
        },
        None => {},
    }
}

/// What the text that a client gets parses to has no `_meta` where a backend puts
/// one, and none at the top of an MCP result that had none there.
proof fn lemma_client_text_has_no_meta(t: JsonTree, parsed: JsonTree)
    requires
        tame_answer(t),
        items_read_back(t),
        json::same_shape(strip_tree(t).sorted(), parsed),
    ensures
        !content_has_meta(parsed),
        !structured_has_meta(parsed),
        content_items(parsed) is Some ==> content_items(t) is Some && has_meta(parsed) == has_meta(
            t,
        ),
{
    let u = strip_tree(t);
    law_client_gets_no_meta(t);
    lemma_sorted_has_meta(u);
    lemma_same_shape_meta(u.sorted(), parsed);
    reveal_strlit("_meta");
    reveal_strlit("content");
    reveal_strlit("structuredContent");
    assert("_meta"@.len() == 5 && "content"@.len() == 7);
    assert("structuredContent"@.len() == 17);
    match content_items(t) {
        Some(items) => {
            law_strip_keeps_the_rest(t, "_meta"@);
            let out = json::sorted_items(strip_items(items));
            let got = content_items(parsed)->0;
            assert(content_items(u.sorted()) == Some(out));
            assert forall|i: int| 0 <= i < got.len() implies item_meta(
                #[trigger] got[i],
            ) is None by {
                assert(json::same_shape(out[i], got[i]));
                assert(out[i] == strip_item(items[i]).sorted());
                lemma_same_shape_meta(out[i], got[i]);
                lemma_sorted_has_meta(strip_item(items[i]));
                assert(item_reads_back(items[i]));
                match item_meta(items[i]) {
                    Some(inner) => {
                        let rest = drop_meta(inner);
                        lemma_sorted_has_meta(rest);
                        match json::json_parsed(printed(rest)) {
                            Some(again) => {
                                lemma_same_shape_meta(rest.sorted(), again);
                            },
                            None => {},
                        }
                    },
                    None => {},
                }
            }
        },
        None => {
            lemma_strip_content_member(t, "content"@);
            lemma_strip_structured_member(strip_content(t), "content"@);
        },
    }
}

/// Taking out the members of one name leaves the others as they were.
pub proof fn lemma_without_member(ms: json::Members, name: Seq<char>, other: Seq<char>)
    ensures
        json::find_member(json::without_member(ms, name), other) == if other == name {
            None
        } else {
            json::find_member(ms, other)
        },
    decreases ms.len(),
{
    if ms.len() > 0 {
        let head = ms.drop_last();
        lemma_without_member(head, name, other);
        json::lemma_last_index(head, other);
        json::lemma_last_index(json::without_member(head, name), other);
        if ms.last().0 != name {
            assert(json::without_member(ms, name).drop_last() =~= json::without_member(
                head,
                name,
            ));
        }
    }
}

/// A new value for one member leaves the others as they were.
pub proof fn lemma_with_value(
    ms: json::Members,
    name: Seq<char>,
    value: JsonTree,
    other: Seq<char>,
)
    requires
        json::has_member(ms, name),
    ensures
        json::find_member(json::with_value(ms, name, value), other) == if other == name {
            Some(value)
        } else {
            json::find_member(ms, other)
        },
{
    let out = json::with_value(ms, name, value);
    json::lemma_last_index(ms, name);
    json::lemma_last_index(ms, other);
    json::lemma_last_index(out, other);
    let i = json::last_index(ms, other);
    let k = json::last_index(out, other);
    if i >= 0 {
        assert(out[i].0 == other);
        if k < i {
            assert(out[i].0 != other);
        }
    }
    if k >= 0 {
        assert(ms[k].0 == other);
        if i < k {
            assert(ms[k].0 != other);
        }
    }
}

/// Members without a member of the name stay as they are.
proof fn lemma_nothing_to_drop(ms: json::Members, name: Seq<char>)
    requires
        !json::has_member(ms, name),
    ensures
        json::without_member(ms, name) == ms,
    decreases ms.len(),
{
    if ms.len() > 0 {
        json::lemma_last_index(ms, name);
        json::lemma_last_index(ms.drop_last(), name);
        lemma_nothing_to_drop(ms.drop_last(), name);
        assert(ms.drop_last().push(ms.last()) =~= ms);
    }
}

/// The members of an answer once `_meta` is out of its content.
proof fn lemma_strip_content_member(t: JsonTree, name: Seq<char>)
    ensures
        strip_content(t).member(name) == match content_items(t) {
            Some(items) => if name == "content"@ {
                Some(JsonTree::Array(strip_items(items)))
            } else {
                t.member(name)
            },
            None => if name == "_meta"@ {
                None
            } else {
                t.member(name)
            },
        },
{
    match t {
        JsonTree::Object(ms) => match content_items(t) {
            Some(items) => {
                lemma_with_value(ms, "content"@, JsonTree::Array(strip_items(items)), name);
            },
            None => {
                lemma_without_member(ms, "_meta"@, name);
            },
        },
        _ => {},
    }
}

/// The members of an answer once `_meta` is out of its `structuredContent`.
proof fn lemma_strip_structured_member(t: JsonTree, name: Seq<char>)
    ensures
        strip_structured(t).member(name) == if name == "structuredContent"@ {
            match t.member(name) {
                Some(sc) => Some(drop_meta(sc)),
                None => None,
            }
        } else {
            t.member(name)
        },
{
    match t {
        JsonTree::Object(ms) => match t.member("structuredContent"@) {
            Some(sc) => {
                if has_meta(sc) {
                    lemma_with_value(ms, "structuredContent"@, drop_meta(sc), name);
                } else if sc is Object {
                    lemma_nothing_to_drop(sc->Object_0, "_meta"@);
                }
            },
            None => {},
        },
        _ => {},
    }
}

/// Taking `_meta` out of an answer touches no member but `_meta`, `content` and
/// `structuredContent`, and leaves the `_meta` at the top of an MCP result.
pub proof fn law_strip_keeps_the_rest(t: JsonTree, name: Seq<char>)
    requires
        name != "content"@,
        name != "structuredContent"@,
        name == "_meta"@ ==> content_items(t) is Some,
    ensures
        strip_tree(t).member(name) == t.member(name),
{
    lemma_strip_content_member(t, name);
    lemma_strip_structured_member(strip_content(t), name);
}

/// A client gets no `_meta`: a plain object has none at its top, a text of an
/// MCP result that had one is the text of the same object without it, and
/// `structuredContent` has none.
pub proof fn law_client_gets_no_meta(t: JsonTree)
    ensures
        match content_items(t) {
            Some(items) => {
                &&& content_items(strip_tree(t)) == Some(strip_items(items))
                &&& forall|i: int|
                    0 <= i < items.len() ==> match item_meta(#[trigger] items[i]) {
                        Some(inner) => {
                            &&& item_text(strip_item(items[i])) == Some(printed(drop_meta(inner)))
                            &&& !has_meta(drop_meta(inner))
                        },
                        None => strip_item(items[i]) == items[i],
                    }
            },
            None => !has_meta(strip_tree(t)),
        },
        !structured_has_meta(strip_tree(t)),
{
    reveal_strlit("_meta");
    reveal_strlit("content");
    reveal_strlit("structuredContent");
    let partly = strip_content(t);
    lemma_strip_content_member(t, "content"@);
    lemma_strip_content_member(t, "_meta"@);
    lemma_strip_structured_member(partly, "content"@);
    lemma_strip_structured_member(partly, "_meta"@);
    lemma_strip_structured_member(partly, "structuredContent"@);
    match partly.member("structuredContent"@) {
        Some(JsonTree::Object(ms)) => {
            lemma_without_member(ms, "_meta"@, "_meta"@);
        },
        _ => {},
    }
    match content_items(t) {
        Some(items) => {
            assert forall|i: int| 0 <= i < items.len() implies match item_meta(
                #[trigger] items[i],
            ) {
                Some(inner) => {
                    &&& item_text(strip_item(items[i])) == Some(printed(drop_meta(inner)))
                    &&& !has_meta(drop_meta(inner))
                },
                None => strip_item(items[i]) == items[i],
            } by {
                match item_meta(items[i]) {
                    Some(inner) => {
                        lemma_with_value(
                            items[i]->Object_0,
                            "text"@,
                            JsonTree::Text(printed(drop_meta(inner))),
                            "text"@,
                        );
                        lemma_without_member(inner->Object_0, "_meta"@, "_meta"@);
                    },
                    None => {},
                }
            }
        },
        None => {},
    }
}

/// The texts among some items are exactly those, and where all items are texts they
/// stand in the same order.
proof fn lemma_text_items(items: Seq<JsonTree>)
    ensures
        forall|x: Seq<char>| #[trigger]
            text_items(items).contains(x) <==> items.contains(JsonTree::Text(x)),
        (forall|i: int| 0 <= i < items.len() ==> (#[trigger] items[i]) is Text) ==> {
            &&& text_items(items).len() == items.len()
            &&& forall|i: int|
                0 <= i < items.len() ==> JsonTree::Text(#[trigger] text_items(items)[i])
                    == items[i]
        },
    decreases items.len(),
{
    if items.len() > 0 {
        let head = items.drop_last();
        lemma_text_items(head);
        assert(items =~= head.push(items.last()));
        assert forall|x: Seq<char>| #[trigger]
            text_items(items).contains(x) <==> items.contains(JsonTree::Text(x)) by {
            text::lemma_push_contains(head, items.last(), JsonTree::Text(x));
            assert(text_items(head).contains(x) <==> head.contains(JsonTree::Text(x)));
            match items.last().text() {
                Some(s) => {
                    text::lemma_push_contains(text_items(head), s, x);
                },
                None => {},
            }
        }
        if forall|i: int| 0 <= i < items.len() ==> (#[trigger] items[i]) is Text {
            assert(items[items.len() - 1] is Text);
            assert forall|i: int| 0 <= i < head.len() implies (#[trigger] head[i]) is Text by {
                assert(items[i] is Text);
            }
            assert forall|i: int| 0 <= i < items.len() implies JsonTree::Text(
                #[trigger] text_items(items)[i],
            ) == items[i] by {
                if i < head.len() {
                    assert(JsonTree::Text(text_items(head)[i]) == head[i]);
                }
            }
        }
    }
}

/// The files of an answer are the texts in the list `dependent_files` of its
/// `_meta`, in their order. Without such a list it names none.
pub proof fn law_files_are_those_listed(t: JsonTree, service: JsonTree, items: Seq<JsonTree>)
    ensures
        t.member("_meta"@) == Some(service) && service.member("dependent_files"@) == Some(
            JsonTree::Array(items),
        ) ==> (files_in(t) matches Some(files) && {
            &&& forall|x: Seq<char>| #[trigger]
                files.contains(x) <==> items.contains(JsonTree::Text(x))
            &&& (forall|i: int| 0 <= i < items.len() ==> (#[trigger] items[i]) is Text) ==> {
                &&& files.len() == items.len()
                &&& forall|i: int|
                    0 <= i < items.len() ==> JsonTree::Text(#[trigger] files[i]) == items[i]
            }
        }),
        t.member("_meta"@) is None ==> files_in(t) is None,
        t.member("_meta"@) == Some(service) && !(service.member("dependent_files"@) matches Some(
            JsonTree::Array(_),
        )) ==> files_in(t) is None,
{
    lemma_text_items(items);
}

/// Among members in order a time is found under a name if and only if an integer
/// in range stands there.
proof fn lemma_whole_members(ms: json::Members, name: Seq<char>)
    requires
        json::in_order(ms),
    ensures
        whole_members(ms).contains_key(name) <==> (json::find_member(ms, name) matches Some(
            JsonTree::Int(i),
        ) && i64::MIN <= i <= i64::MAX),
        whole_members(ms).contains_key(name) ==> json::find_member(ms, name) == Some(
            JsonTree::Int(whole_members(ms)[name] as int),
        ),
    decreases ms.len(),
{
    if ms.len() > 0 {
        let head = ms.drop_last();
        assert(json::in_order(head)) by {
            assert forall|i: int, j: int| 0 <= i < j < head.len() implies text::name_less(
                head[i].0,
                head[j].0,
            ) by {
                assert(text::name_less(ms[i].0, ms[j].0));
            }
        }
        lemma_whole_members(head, name);
        json::lemma_last_index(head, name);
        if name == ms.last().0 && json::has_member(head, name) {
            let i = json::last_index(head, name);
            assert(text::name_less(ms[i].0, ms[ms.len() - 1].0));
            text::lemma_less_irreflexive(name);
        }
    }
}

/// The times of an answer are the integers in the object `file_mtimes` of its
/// `_meta`, each under the name of its file. Without such an object there are none.
pub proof fn law_times_are_those_listed(
    t: JsonTree,
    service: JsonTree,
    ms: json::Members,
    name: Seq<char>,
)
    requires
        json::in_order(ms),
    ensures
        t.member("_meta"@) == Some(service) && service.member("file_mtimes"@) == Some(
            JsonTree::Object(ms),
        ) ==> (mtimes_in(t) matches Some(times) && {
            &&& times.contains_key(name) <==> (json::find_member(ms, name) matches Some(
                JsonTree::Int(i),
            ) && i64::MIN <= i <= i64::MAX)
            &&& times.contains_key(name) ==> json::find_member(ms, name) == Some(
                JsonTree::Int(times[name] as int),
            )
        }),
        t.member("_meta"@) is None ==> mtimes_in(t) is None,
        t.member("_meta"@) == Some(service) && !(service.member("file_mtimes"@) matches Some(
            JsonTree::Object(_),
        )) ==> mtimes_in(t) is None,
{
    lemma_whole_members(ms, name);
}

/// The first content item of type `text` is the first of that type.
proof fn lemma_first_text_item_at(items: Seq<JsonTree>, i: int)
    requires
        0 <= i < items.len(),
        items[i].member("type"@) == Some(JsonTree::Text("text"@)),
        forall|j: int|
            0 <= j < i ==> (#[trigger] items[j]).member("type"@) != Some(
                JsonTree::Text("text"@),
            ),
    ensures
        first_text_item(items) == Some(items[i]),
    decreases i,
{
    if i > 0 {
        assert(items[0].member("type"@) != Some(JsonTree::Text("text"@)));
        let rest = items.drop_first();
        assert forall|j: int| 0 <= j < i - 1 implies (#[trigger] rest[j]).member("type"@) != Some(
            JsonTree::Text("text"@),
        ) by {
            assert(rest[j] == items[j + 1]);
        }
        lemma_first_text_item_at(rest, i - 1);
    }
}

/// What an answer names at its own top goes before what is nested in it.
pub proof fn law_top_goes_before_what_is_nested(payload: Seq<char>, t: JsonTree)
    requires
        json::json_parsed(payload) == Some(t),
    ensures
        files_in(t) matches Some(files) ==> dependent_files(payload) == files,
        mtimes_in(t) matches Some(times) ==> file_mtimes(payload) == times,
{
}

/// An MCP result that names nothing at its own top names what the JSON text of its
/// first content item of type `text` names, as that text does on its own. A text
/// that is no JSON names nothing.
pub proof fn law_mcp_result_names_what_its_text_names(
    payload: Seq<char>,
    t: JsonTree,
    items: Seq<JsonTree>,
    i: int,
    s: Seq<char>,
    inner: JsonTree,
)
    requires
        json::json_parsed(payload) == Some(t),
        t.member("content"@) == Some(JsonTree::Array(items)),
        0 <= i < items.len(),
        items[i].member("type"@) == Some(JsonTree::Text("text"@)),
        items[i].member("text"@) == Some(JsonTree::Text(s)),
        forall|j: int|
            0 <= j < i ==> (#[trigger] items[j]).member("type"@) != Some(
                JsonTree::Text("text"@),
            ),
        json::json_parsed(s) == Some(inner),
    ensures
        files_in(t) is None ==> dependent_files(payload) == match files_in(inner) {
            Some(files) => files,
            None => Seq::empty(),
        },
        mtimes_in(t) is None ==> file_mtimes(payload) == match mtimes_in(inner) {
            Some(times) => times,
            None => Map::empty(),
        },
        files_in(t) is None && inner.member("content"@) is None ==> dependent_files(payload)
            == dependent_files(s),
        mtimes_in(t) is None && inner.member("content"@) is None ==> file_mtimes(payload)
            == file_mtimes(s),
{
    lemma_first_text_item_at(items, i);
}

/// An MCP result that names nothing at its own top, and whose first content item of
/// type `text` has no text that is JSON, names nothing at all, and neither does one
/// without such an item.
pub proof fn law_mcp_result_without_json_names_nothing(
    payload: Seq<char>,
    t: JsonTree,
    items: Seq<JsonTree>,
    i: int,
)
    requires
        json::json_parsed(payload) == Some(t),
        t.member("content"@) == Some(JsonTree::Array(items)),
        0 <= i <= items.len(),
        forall|j: int|
            0 <= j < i ==> (#[trigger] items[j]).member("type"@) != Some(
                JsonTree::Text("text"@),
            ),
        i < items.len() ==> {
            &&& items[i].member("type"@) == Some(JsonTree::Text("text"@))
            &&& items[i].member("text"@) matches Some(JsonTree::Text(s)) ==> json::json_parsed(
                s,
            ) is None
        },
    ensures
        files_in(t) is None ==> dependent_files(payload).len() == 0,
        mtimes_in(t) is None ==> file_mtimes(payload).dom() == Set::<Seq<char>>::empty(),
{
    if i < items.len() {
        lemma_first_text_item_at(items, i);
    } else {
        lemma_first_text_item(items);
        match first_text_item(items) {
            Some(item) => {
                lemma_first_text_item_kind(items);
                let j = choose|j: int| 0 <= j < items.len() && items[j] == item;
                assert(items[j].member("type"@) != Some(JsonTree::Text("text"@)));
            },
            None => {},
        }
    }
}

/// The first content item of type `text` is of that type.
proof fn lemma_first_text_item_kind(items: Seq<JsonTree>)
    ensures
        first_text_item(items) matches Some(item) ==> item.member("type"@) == Some(
            JsonTree::Text("text"@),
        ),
    decreases items.len(),
{
    if items.len() > 0 && !is_text_item(items[0]) {
        lemma_first_text_item_kind(items.drop_first());
    }
}

/// A text that is no JSON names no files and no times. JSON that is no MCP result
/// names the files and the times that its own top names, and no others.
pub proof fn law_other_text_names_no_more_than_its_top(payload: Seq<char>)
    ensures
        json::json_parsed(payload) is None ==> dependent_files(payload).len() == 0
            && file_mtimes(payload).dom() == Set::<Seq<char>>::empty(),
        json::json_parsed(payload) matches Some(t) ==> !(t.member("content"@) matches Some(
            JsonTree::Array(_),
        )) ==> {
            &&& files_in(t) is None ==> dependent_files(payload).len() == 0
            &&& mtimes_in(t) is None ==> file_mtimes(payload).dom() == Set::<Seq<char>>::empty()
        },
{
}

/// Where there is no `_meta` in the nested texts of an MCP result, at the top of
/// any other answer or in `structuredContent`, a client gets the text byte for byte.
pub proof fn law_payload_without_meta_is_left_alone(payload: Seq<char>, t: JsonTree)
    requires
        json::json_parsed(payload) == Some(t),
        match t.member("content"@) {
            Some(JsonTree::Array(items)) => forall|i: int, s: Seq<char>|
                #![trigger items[i], json::json_parsed(s)]
                0 <= i < items.len() && items[i].member("text"@) == Some(JsonTree::Text(s)) ==> (
                json::json_parsed(s) matches Some(inner) ==> inner.member("_meta"@) is None),
            _ => t.member("_meta"@) is None,
        },
        t.member("structuredContent"@) matches Some(sc) ==> sc.member("_meta"@) is None,
    ensures
        stripped(payload) == payload,
{
    lemma_nothing_carried(t);
    match t.member("content"@) {
        Some(JsonTree::Array(items)) => {
            assert forall|i: int| 0 <= i < items.len() implies item_meta(
                #[trigger] items[i],
            ) is None by {
                match items[i].member("text"@) {
                    Some(JsonTree::Text(s)) => {
                        assert(json::json_parsed(s) matches Some(inner) ==> inner.member(
                            "_meta"@,
                        ) is None);
                    },
                    _ => {},
                }
            }
        },
        _ => {},
    }
}

/// Where there is a `_meta` at the top of a plain object, in a nested text or in
/// `structuredContent`, a client gets the compact text of the answer without it.
pub proof fn law_payload_with_meta_is_written_anew(
    payload: Seq<char>,
    t: JsonTree,
    items: Seq<JsonTree>,
    i: int,
    s: Seq<char>,
)
    requires
        json::json_parsed(payload) == Some(t),
        ({
            ||| t.member("_meta"@) is Some && !(t.member("content"@) matches Some(
                JsonTree::Array(_),
            ))
            ||| t.member("structuredContent"@) matches Some(sc) && sc.member("_meta"@) is Some
            ||| {
                &&& t.member("content"@) == Some(JsonTree::Array(items))
                &&& 0 <= i < items.len()
                &&& items[i].member("text"@) == Some(JsonTree::Text(s))
                &&& json::json_parsed(s) matches Some(inner) && inner.member("_meta"@) is Some
            }
        }),
    ensures
        stripped(payload) == json::json_printed(strip_tree(t).sorted()),
{
    lemma_nothing_carried(t);
    if t.member("content"@) == Some(JsonTree::Array(items)) && 0 <= i < items.len()
        && items[i].member("text"@) == Some(JsonTree::Text(s)) {
        assert(item_text(items[i]) == Some(s));
        assert(item_value(items[i]) == json::json_parsed(s));
    }
}

/// Taking `_meta` out of an MCP result keeps its content items, each with all of
/// its members. Only a text that is JSON with a `_meta` changes: it is written anew
/// without that member, and every other member of it stays.
pub proof fn law_strip_keeps_the_items(
    t: JsonTree,
    items: Seq<JsonTree>,
    i: int,
    s: Seq<char>,
    name: Seq<char>,
)
    requires
        t.member("content"@) == Some(JsonTree::Array(items)),
        0 <= i < items.len(),
    ensures
        strip_tree(t).member("content"@) matches Some(JsonTree::Array(out)) && {
            &&& out.len() == items.len()
            &&& name != "text"@ ==> out[i].member(name) == items[i].member(name)
            &&& items[i].member("text"@) == Some(JsonTree::Text(s)) ==> match json::json_parsed(s) {
                Some(inner) => if inner.member("_meta"@) is Some {
                    &&& out[i].member("text"@) == Some(
                        JsonTree::Text(json::json_printed(drop_meta(inner).sorted())),
                    )
                    &&& drop_meta(inner).member("_meta"@) is None
                    &&& name != "_meta"@ ==> drop_meta(inner).member(name) == inner.member(name)
                } else {
                    out[i] == items[i]
                },
                None => out[i] == items[i],
            }
            &&& !(items[i].member("text"@) matches Some(JsonTree::Text(_))) ==> out[i] == items[i]
        },
{
    law_client_gets_no_meta(t);
    let out = strip_items(items);
    assert(strip_tree(t).member("content"@) == Some(JsonTree::Array(out))) by {
        reveal_strlit("content");
        reveal_strlit("structuredContent");
        assert("content"@.len() == 7 && "structuredContent"@.len() == 17);
        lemma_strip_content_member(t, "content"@);
        lemma_strip_structured_member(strip_content(t), "content"@);
    }
    assert(out[i] == strip_item(items[i]));
    match item_meta(items[i]) {
        Some(inner) => {
            let written = JsonTree::Text(printed(drop_meta(inner)));
            lemma_with_value(items[i]->Object_0, "text"@, written, name);
            lemma_with_value(items[i]->Object_0, "text"@, written, "text"@);
            lemma_without_member(inner->Object_0, "_meta"@, name);
            lemma_without_member(inner->Object_0, "_meta"@, "_meta"@);
        },
        None => {},
    }
}

/// Taking `_meta` out of `structuredContent` keeps every other member of it.
pub proof fn law_strip_keeps_structured_content(t: JsonTree, name: Seq<char>)
    requires
        name != "_meta"@,
    ensures
        match (t.member("structuredContent"@), strip_tree(t).member("structuredContent"@)) {
            (Some(before), Some(after)) => {
                &&& after.member(name) == before.member(name)
                &&& after.member("_meta"@) is None
                &&& !(before is Object) ==> after == before
            },
            (None, None) => true,
            _ => false,
        },
{
    reveal_strlit("_meta");
    reveal_strlit("content");
    reveal_strlit("structuredContent");
    assert("_meta"@.len() == 5 && "content"@.len() == 7 && "structuredContent"@.len() == 17);
    lemma_strip_content_member(t, "structuredContent"@);
    lemma_strip_structured_member(strip_content(t), "structuredContent"@);
    match t.member("structuredContent"@) {
        Some(JsonTree::Object(ms)) => {
            lemma_without_member(ms, "_meta"@, name);
            lemma_without_member(ms, "_meta"@, "_meta"@);
        },
        _ => {},
    }
}

/// An answer that is no object stays as it is, and a `content` that is no list of
/// items stays in its place.
pub proof fn law_strip_leaves_other_answers(t: JsonTree)
    ensures
        !(t is Object) ==> strip_tree(t) == t,
        t is Object ==> strip_tree(t) is Object,
        !(t.member("content"@) matches Some(JsonTree::Array(_))) ==> strip_tree(t).member(
            "content"@,
        ) == t.member("content"@),
{
    reveal_strlit("_meta");
    reveal_strlit("content");
    reveal_strlit("structuredContent");
    assert("_meta"@.len() == 5 && "content"@.len() == 7 && "structuredContent"@.len() == 17);
    lemma_strip_content_member(t, "content"@);
    lemma_strip_structured_member(strip_content(t), "content"@);
}

} // verus!
