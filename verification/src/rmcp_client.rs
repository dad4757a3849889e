//! How a call is put to the backend.

use crate::json;
use crate::json::{Json, JsonTree, Members};
use vstd::prelude::*;

verus! {

/// The arguments that a backend gets: the members of an object, none for null,
/// and any other value under the name `value`.
pub open spec fn arguments_of(args: JsonTree) -> Option<Members> {
    match args {
        JsonTree::Object(ms) => Some(ms),
        JsonTree::Null => None,
        other => Some(seq![("value"@, other)]),
    }
}

/// The arguments that a backend gets.
pub fn call_arguments(args: &Json) -> (r: Option<Vec<(String, Json)>>)
    ensures
        match r {
            Some(ms) => arguments_of(args.tree()) == Some(json::members(ms@)),
            None => arguments_of(args.tree()) is None,
        },
{
    broadcast use json::lemma_object_tree;

    match args.clone() {
        Json::Object(ms) => Some(ms),
        Json::Null => None,
        other => {
            let ms: Vec<(String, Json)> = vec![("value".to_string(), other)];
            assert(json::members(ms@) =~= seq![("value"@, args.tree())]);
            Some(ms)
        },
    }
}

/// The error of a call that did not get through.
pub fn call_failure(tool: &str, reason: &str) -> (r: String)
    ensures
        r@ == "rmcp call_tool("@ + tool@ + ") failed: "@ + reason@,
{
    let mut out: String = "rmcp call_tool(".to_string();
    out.append(tool);
    out.append(") failed: ");
    out.append(reason);
    out
}

/// A backend gets every argument of an object as it is, none for null, and any
/// other value under the name `value`, which is then all it gets.
pub proof fn law_backend_gets_the_arguments(args: JsonTree, name: Seq<char>)
    ensures
        args is Null <==> arguments_of(args) is None,
        args is Object ==> (arguments_of(args) matches Some(ms) && json::find_member(ms, name)
            == args.member(name) && ms == args->Object_0),
        !(args is Object) && !(args is Null) ==> (arguments_of(args) matches Some(ms) && ms.len()
            == 1 && json::find_member(ms, "value"@) == Some(args)),
{
    if !(args is Object) && !(args is Null) {
        json::lemma_listed_member(seq![("value"@, args)], 0);
    }
}

} // verus!
