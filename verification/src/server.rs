//! What the proxy says of itself as an MCP server, and how it reports errors.

use crate::json;
use crate::json::{Json, JsonTree};
use crate::meta;
use crate::proxy::{ErrorView, ProxyError};
use crate::text;
use vstd::prelude::*;

verus! {

/// The name of the server in front of a backend.
pub fn server_name(server_alias: &str) -> (r: String)
    ensures
        r@ == "mcp-cache-"@ + server_alias@,
{
    let mut out: String = "mcp-cache-".to_string();
    out.append(server_alias);
    out
}

/// The instructions that a client gets.
pub fn server_instructions(server_alias: &str) -> (r: String)
    ensures
        r@ == "Кэширующий прокси перед бэкендом '"@ + server_alias@
            + "'. Все вызовы tools/call проходят через TTL-кэш. Заголовок X-Cache-Bypass=1 минует кэш."@,
{
    let mut out: String = "Кэширующий прокси перед бэкендом '".to_string();
    out.append(server_alias);
    out.append(
        "'. Все вызовы tools/call проходят через TTL-кэш. Заголовок X-Cache-Bypass=1 минует кэш.",
    );
    out
}

/// Whether a header `X-Cache-Bypass` asks to go past the cache.
pub open spec fn asks_to_bypass(header: Option<Seq<char>>) -> bool {
    header == Some("1"@)
}

/// Whether a request asks to go past the cache: its header `X-Cache-Bypass`, if
/// there is one, reads `1`.
pub fn bypass_requested(header: Option<&str>) -> (r: bool)
    ensures
        r == (header matches Some(value) && value@ == "1"@),
        r == asks_to_bypass(
            match header {
                Some(value) => Some(value@),
                None => None,
            },
        ),
{
    match header {
        Some(value) => text::text_eq(value, "1"),
        None => false,
    }
}

/// The results of a batch as an MCP result: one content item of type `text`.
pub open spec fn text_result(inner: Seq<char>) -> JsonTree {
    JsonTree::Object(
        seq![
            (
                "content"@,
                JsonTree::Array(
                    seq![
                        JsonTree::Object(
                            seq![
                                ("type"@, JsonTree::Text("text"@)),
                                ("text"@, JsonTree::Text(inner)),
                            ],
                        ),
                    ],
                ),
            ),
        ],
    )
}

/// The text of an MCP result with one content item of type `text`. Parsed, it is
/// that result.
pub fn batch_payload(inner: String) -> (r: String)
    ensures
        r@ == meta::printed(text_result(inner@)),
        json::json_parsed(r@) == Some(text_result(inner@).sorted()),
{
    let item: Vec<(String, Json)> = vec![
        ("type".to_string(), Json::Text("text".to_string())),
        ("text".to_string(), Json::Text(inner)),
    ];
    let ghost item_tree = seq![
        ("type"@, JsonTree::Text("text"@)),
        ("text"@, JsonTree::Text(inner@)),
    ];
    proof {
        json::lemma_object_tree(item);
        assert(json::members(item@) =~= item_tree);
    }
    let content: Vec<Json> = vec![Json::Object(item)];
    proof {
        json::lemma_array_tree(content);
        assert(json::trees(content@) =~= seq![JsonTree::Object(item_tree)]);
    }
    let whole: Vec<(String, Json)> = vec![("content".to_string(), Json::Array(content))];
    proof {
        json::lemma_object_tree(whole);
        assert(json::members(whole@) =~= seq![
            ("content"@, JsonTree::Array(seq![JsonTree::Object(item_tree)])),
        ]);
    }
    let result = Json::Object(whole);
    assert(json::plain(result.tree(), json::nesting_limit())) by {
        reveal_strlit("$serde_json::private::RawValue");
        reveal_strlit("content");
        reveal_strlit("type");
        reveal_strlit("text");
        assert(json::raw_name().len() == 30);
        let part = result.tree()->Object_0[0].1;
        let item = part->Array_0[0];
        assert(item == JsonTree::Object(item_tree));
        assert(json::plain(item_tree[0].1, 124));
        assert(json::plain(item_tree[1].1, 124));
        assert(json::plain(item, 125));
        assert(json::plain(part, 126));
    }
    json::print_json(&result)
}

/// An error as an MCP client gets it.
#[derive(Debug)]
pub struct ErrorReport {
    pub message: String,
    pub data: Option<Json>,
}

/// The message of the report on an error.
pub open spec fn report_message(error: ErrorView) -> Seq<char> {
    match error {
        ErrorView::Backend(reason) => "backend error: "@ + reason,
        ErrorView::Internal(reason) => reason,
        ErrorView::Frozen { scope, retry_after_seconds } => "прокси заморожен (scope='"@ + (
        if scope.len() == 0 {
            "global"@
        } else {
            scope
        }) + "'): обновление конфигурации в процессе, повторите через "@ + text::decimal(
            retry_after_seconds as nat,
        ) + " сек."@,
    }
}

/// The data of the report on an error: for a frozen scope, which one it is and
/// when to come back.
pub open spec fn report_data(error: ErrorView) -> Option<JsonTree> {
    match error {
        ErrorView::Frozen { scope, retry_after_seconds } => Some(
            JsonTree::Object(
                seq![
                    ("frozen"@, JsonTree::Bool(true)),
                    ("scope"@, JsonTree::Text(scope)),
                    ("retry_after_seconds"@, JsonTree::Int(retry_after_seconds as int)),
                ],
            ),
        ),
        _ => None,
    }
}

/// The report on an error.
pub fn proxy_error_to_mcp(error: ProxyError) -> (r: ErrorReport)
    ensures
        r.message@ == report_message(error@),
        match r.data {
            Some(data) => report_data(error@) == Some(data.tree()),
            None => report_data(error@) is None,
        },
{
    match error {
        ProxyError::Backend(reason) => {
            let mut message: String = "backend error: ".to_string();
            message.append(reason.as_str());
            ErrorReport { message, data: None }
        },
        ProxyError::Internal(reason) => ErrorReport { message: reason, data: None },
        ProxyError::Frozen { scope, retry_after_seconds } => {
            let mut message: String = "прокси заморожен (scope='".to_string();
            if scope.as_str().is_empty() {
                message.append("global");
            } else {
                message.append(scope.as_str());
            }
            message.append("'): обновление конфигурации в процессе, повторите через ");
            message.append(text::decimal_text(retry_after_seconds).as_str());
            message.append(" сек.");
            let data: Vec<(String, Json)> = vec![
                ("frozen".to_string(), Json::Bool(true)),
                ("scope".to_string(), Json::Text(scope)),
                ("retry_after_seconds".to_string(), json::count_json(retry_after_seconds)),
            ];
            proof {
                json::lemma_object_tree(data);
                assert(json::members(data@) =~= report_data(error@)->0->Object_0);
            }
            ErrorReport { message, data: Some(Json::Object(data)) }
        },
    }
}

/// A client that reads the result of a batch finds its text in the one content item,
/// which is of type `text`, also once the members are in order.
pub proof fn law_client_reads_the_text_of_a_batch(s: Seq<char>)
    ensures
        text_result(s).member("content"@) matches Some(JsonTree::Array(items)) && items.len() == 1
            && items[0].member("type"@) == Some(JsonTree::Text("text"@)) && items[0].member(
            "text"@,
        ) == Some(JsonTree::Text(s)),
        text_result(s).sorted().member("content"@) matches Some(JsonTree::Array(items))
            && items.len() == 1 && items[0].member("type"@) == Some(JsonTree::Text("text"@))
            && items[0].member("text"@) == Some(JsonTree::Text(s)),
        text_result(s).member("_meta"@) is None,
{
    reveal_strlit("content");
    reveal_strlit("type");
    reveal_strlit("text");
    reveal_strlit("_meta");
    assert("content"@.len() == 7 && "_meta"@.len() == 5);
    assert("type"@.len() == 4 && "text"@.len() == 4);
    assert("type"@[1] == 'y' && "text"@[1] == 'e');
    let whole = text_result(s);
    let ms = whole->Object_0;
    json::lemma_listed_member(ms, 0);
    json::lemma_last_index(ms, "_meta"@);
    let items = ms[0].1->Array_0;
    let item = items[0];
    json::lemma_listed_member(item->Object_0, 0);
    json::lemma_listed_member(item->Object_0, 1);
    json::law_sorting_keeps_members(whole, "content"@);
    json::law_sorting_keeps_members(item, "type"@);
    json::law_sorting_keeps_members(item, "text"@);
    assert(whole.sorted().member("content"@) == Some(
        JsonTree::Array(json::sorted_items(items)),
    ));
    assert(json::sorted_items(items)[0] == item.sorted());
}

/// A client is told what the backend or the proxy said, word for word, and of a
/// frozen scope which one it is and after how many seconds to come back.
pub proof fn law_report_says_the_reason(reason: Seq<char>, scope: Seq<char>, secs: u64)
    ensures
        reason.is_suffix_of(report_message(ErrorView::Backend(reason))),
        report_message(ErrorView::Internal(reason)) == reason,
        report_data(ErrorView::Backend(reason)) is None,
        report_data(ErrorView::Internal(reason)) is None,
        ({
            let frozen = ErrorView::Frozen { scope, retry_after_seconds: secs };
            &&& scope.len() > 0 ==> exists|head: Seq<char>, tail: Seq<char>|
                report_message(frozen) == #[trigger] (head + scope + tail)
            &&& scope.len() == 0 ==> exists|head: Seq<char>, tail: Seq<char>|
                report_message(frozen) == #[trigger] (head + "global"@ + tail)
            &&& exists|head: Seq<char>, tail: Seq<char>|
                report_message(frozen) == #[trigger] (head + text::decimal(secs as nat) + tail)
            &&& report_data(frozen) matches Some(data) && {
                &&& data.member("frozen"@) == Some(JsonTree::Bool(true))
                &&& data.member("scope"@) == Some(JsonTree::Text(scope))
                &&& data.member("retry_after_seconds"@) == Some(JsonTree::Int(secs as int))
            }
        }),
{
    let backend = report_message(ErrorView::Backend(reason));
    assert(backend.subrange(backend.len() - reason.len(), backend.len() as int) =~= reason);
    let frozen = ErrorView::Frozen { scope, retry_after_seconds: secs };
    let message = report_message(frozen);
    let shown = text::decimal(secs as nat);
    let start = "прокси заморожен (scope='"@;
    let middle = "'): обновление конфигурации в процессе, повторите через "@;
    let end = " сек."@;
    if scope.len() > 0 {
        assert(message =~= start + scope + (middle + shown + end));
        assert(message =~= (start + scope + middle) + shown + end);
    } else {
        assert(message =~= start + "global"@ + (middle + shown + end));
        assert(message =~= (start + "global"@ + middle) + shown + end);
    }
    reveal_strlit("frozen");
    reveal_strlit("scope");
    reveal_strlit("retry_after_seconds");
    assert("frozen"@.len() == 6 && "scope"@.len() == 5 && "retry_after_seconds"@.len() == 19);
    let ms = report_data(frozen)->0->Object_0;
    json::lemma_listed_member(ms, 0);
    json::lemma_listed_member(ms, 1);
    json::lemma_listed_member(ms, 2);
}

/// A request goes past the cache only if its header is the one character `1`: not
/// without a header, and not with any other text.
pub proof fn law_only_a_one_asks_to_bypass(value: Seq<char>)
    ensures
        !asks_to_bypass(None),
        asks_to_bypass(Some(value)) <==> value.len() == 1 && value[0] == '1',
{
    reveal_strlit("1");
    if value.len() == 1 && value[0] == '1' {
        assert(value =~= "1"@);
    }
}

} // verus!
