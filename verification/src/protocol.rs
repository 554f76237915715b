//! The MCP side of the server: which methods it answers, which tools it
//! offers and how it describes them, and what it says on `initialize`.

use vstd::prelude::*;
use crate::json::{Json, JsonView, array_view, members_view};
use crate::slim::{lemma_array_view_index, lemma_array_view_len, lemma_members_view_index, lemma_members_view_len};
use crate::text::{chars_of, copy_range, decimal, push_decimal, push_str, str_eq, string_from_chars};

verus! {

// ---------------------------------------------------------------------------
// Protocol routing
// ---------------------------------------------------------------------------

/// The tools the server offers.
#[derive(Debug, Clone, Copy, PartialEq, Eq)]
pub enum Tool {
    ReadSlim,
    GrepSlim,
    DirMap,
    JsonSlim,
    TextSlim,
    TokenCount,
}

/// The tool a `tools/call` names.
pub open spec fn tool_spec(name: Seq<char>) -> Option<Tool> {
    if name == "read_slim"@ {
        Some(Tool::ReadSlim)
    } else if name == "grep_slim"@ {
        Some(Tool::GrepSlim)
    } else if name == "dir_map"@ {
        Some(Tool::DirMap)
    } else if name == "json_slim"@ {
        Some(Tool::JsonSlim)
    } else if name == "text_slim"@ {
        Some(Tool::TextSlim)
    } else if name == "token_count"@ {
        Some(Tool::TokenCount)
    } else {
        None
    }
}

/// The tool called `name`, if there is one.
pub fn tool_named(name: &str) -> (r: Option<Tool>)
    ensures
        r == tool_spec(name@),
{
    if str_eq(name, "read_slim") {
        Some(Tool::ReadSlim)
    } else if str_eq(name, "grep_slim") {
        Some(Tool::GrepSlim)
    } else if str_eq(name, "dir_map") {
        Some(Tool::DirMap)
    } else if str_eq(name, "json_slim") {
        Some(Tool::JsonSlim)
    } else if str_eq(name, "text_slim") {
        Some(Tool::TextSlim)
    } else if str_eq(name, "token_count") {
        Some(Tool::TokenCount)
    } else {
        None
    }
}

/// What the server does with a JSON-RPC message.
#[derive(Debug, Clone, Copy, PartialEq, Eq)]
pub enum Route {
    /// A notification or a client's response: nothing is answered.
    Ignore,
    Initialize,
    Ping,
    ListTools,
    CallTool,
    /// An unknown method: answered with error -32601.
    NotFound,
}

/// How a message with method `method` is handled.
pub open spec fn route_spec(method: Seq<char>) -> Route {
    if method.len() == 0 || (method.len() >= 14 && method.take(14) == "notifications/"@) {
        Route::Ignore
    } else if method == "initialize"@ {
        Route::Initialize
    } else if method == "ping"@ {
        Route::Ping
    } else if method == "tools/list"@ {
        Route::ListTools
    } else if method == "tools/call"@ {
        Route::CallTool
    } else {
        Route::NotFound
    }
}

/// How the server handles a message with method `method`.
pub fn route_method(method: &str) -> (r: Route)
    ensures
        r == route_spec(method@),
{
    let cs = chars_of(method);
    let prefix = chars_of("notifications/");
    proof {
        reveal_strlit("notifications/");
    }
    if cs.len() == 0 {
        return Route::Ignore;
    }
    if cs.len() >= prefix.len() {
        let head = copy_range(&cs, 0, prefix.len());
        if crate::text::chars_eq(&head, &prefix) {
            assert(method@.take(14) =~= head@);
            return Route::Ignore;
        }
        assert(method@.take(14) =~= head@);
    }
    if str_eq(method, "initialize") {
        Route::Initialize
    } else if str_eq(method, "ping") {
        Route::Ping
    } else if str_eq(method, "tools/list") {
        Route::ListTools
    } else if str_eq(method, "tools/call") {
        Route::CallTool
    } else {
        Route::NotFound
    }
}


// ---------------------------------------------------------------------------
// Tool descriptions
// ---------------------------------------------------------------------------

/// The names of the tools, in the order `tools/list` gives them.
pub open spec fn listed_tools() -> Seq<Seq<char>> {
    seq!["read_slim"@, "grep_slim"@, "dir_map"@, "json_slim"@, "text_slim"@, "token_count"@]
}

/// The schema of a property: its type and what it means.
pub open spec fn property_view(ty: Seq<char>, desc: Seq<char>) -> JsonView {
    JsonView::Object(seq![("type"@, JsonView::String(ty)), ("description"@, JsonView::String(desc))])
}

/// The schema of a string property that takes one of `values`.
pub open spec fn choice_view(values: Seq<Seq<char>>, desc: Seq<char>) -> JsonView {
    JsonView::Object(
        seq![
            ("type"@, JsonView::String("string"@)),
            ("enum"@, JsonView::Array(values.map_values(|v: Seq<char>| JsonView::String(v)))),
            ("description"@, JsonView::String(desc)),
        ],
    )
}

/// What the `k`-th listed tool says it does.
pub open spec fn tool_description(k: int) -> Seq<char> {
    if k == 0 {
        "Read a file with token-slimming. mode=slim (default) strips comments and collapses blank lines; mode=outline returns only function/class/heading signatures with line numbers; mode=raw returns text as-is. Output is capped at max_tokens (head+tail kept, middle snipped). Use this INSTEAD of a plain file read to save tokens."@
    } else if k == 1 {
        "Regex search over a directory tree with minimal output: 'path:line:matched-line' only, capped result count, binary/vendor dirs skipped. Use this INSTEAD of a plain grep/search to save tokens."@
    } else if k == 2 {
        "Compact directory tree (one line per entry, file sizes, vendor dirs skipped, entry-capped). Use this INSTEAD of ls -R / find to save tokens."@
    } else if k == 3 {
        "Minify and prune JSON (from text or file): depth limit, arrays sampled to first N items, long strings truncated. Ideal for large API responses / package-lock style files."@
    } else if k == 4 {
        "Compress arbitrary text: trim trailing whitespace, collapse blank lines; level=aggressive also collapses inner space runs and repeated lines. Use before quoting long logs/output back into context."@
    } else {
        "Estimate token count of text or a file (heuristic: ascii/4 + non-ascii, ±20%, model-agnostic). Use to decide whether something is worth pasting into context."@
    }
}

/// The properties of the `k`-th listed tool's input schema: each argument
/// with its type (or its choices) and what it means.
pub open spec fn tool_properties(k: int) -> Seq<(Seq<char>, JsonView)> {
    if k == 0 {
        seq![
            ("path"@, property_view("string"@, "File path (absolute, or relative to server cwd)"@)),
            ("mode"@, choice_view(seq!["slim"@, "outline"@, "raw"@], "Default: slim"@)),
            ("max_tokens"@, property_view("integer"@, "Output token cap (default: env TOKEN_SLIM_MAX_TOKENS or 4000)"@)),
            ("offset"@, property_view("integer"@, "1-based start line"@)),
            ("limit"@, property_view("integer"@, "Number of lines from offset"@)),
            ("strip_comments"@, property_view("boolean"@, "mode=slim only. Default true"@)),
        ]
    } else if k == 1 {
        seq![
            ("pattern"@, property_view("string"@, "Regex (Rust syntax). Set literal=true to match verbatim"@)),
            ("path"@, property_view("string"@, "Root dir or single file. Default: cwd"@)),
            ("ext"@, property_view("string"@, "Comma-separated extension filter, e.g. 'rs,toml'"@)),
            ("max_results"@, property_view("integer"@, "Default: env TOKEN_SLIM_GREP_MAX_RESULTS or 50"@)),
            ("ignore_case"@, property_view("boolean"@, "Default false"@)),
            ("literal"@, property_view("boolean"@, "Treat pattern as literal text. Default false"@)),
        ]
    } else if k == 2 {
        seq![
            ("path"@, property_view("string"@, "Root dir. Default: cwd"@)),
            ("depth"@, property_view("integer"@, "Max depth. Default 3"@)),
            ("max_entries"@, property_view("integer"@, "Total entry cap. Default: env TOKEN_SLIM_DIR_MAX_ENTRIES or 300"@)),
        ]
    } else if k == 3 {
        seq![
            ("json"@, property_view("string"@, "Inline JSON text (use this OR path)"@)),
            ("path"@, property_view("string"@, "Path to a JSON file (use this OR json)"@)),
            ("max_depth"@, property_view("integer"@, "Default: env TOKEN_SLIM_JSON_MAX_DEPTH or 6"@)),
            ("max_array"@, property_view("integer"@, "Items kept per array. Default: env TOKEN_SLIM_JSON_MAX_ARRAY or 20"@)),
            ("max_string"@, property_view("integer"@, "Chars kept per string. Default: env TOKEN_SLIM_JSON_MAX_STRING or 200"@)),
        ]
    } else if k == 4 {
        seq![
            ("text"@, property_view("string"@, "Text to compress"@)),
            ("level"@, choice_view(seq!["normal"@, "aggressive"@], "Default: normal"@)),
            ("max_tokens"@, property_view("integer"@, "Output token cap (default: env TOKEN_SLIM_MAX_TOKENS or 4000)"@)),
        ]
    } else {
        seq![
            ("text"@, property_view("string"@, "Inline text (use this OR path)"@)),
            ("path"@, property_view("string"@, "File path (use this OR text)"@)),
        ]
    }
}

/// The argument the `k`-th listed tool cannot do without, if any.
pub open spec fn tool_required(k: int) -> Option<Seq<char>> {
    if k == 0 {
        Some("path"@)
    } else if k == 1 {
        Some("pattern"@)
    } else if k == 4 {
        Some("text"@)
    } else {
        None
    }
}

/// The hints every tool carries: it only reads, and only local files.
pub open spec fn read_only_hints() -> JsonView {
    JsonView::Object(seq![("readOnlyHint"@, JsonView::Bool(true)), ("openWorldHint"@, JsonView::Bool(false))])
}

/// The description of the `k`-th tool in `tools/list`: its name, what it
/// does, its input schema and its hints.
pub open spec fn tool_entry(v: JsonView, k: int) -> bool {
    described(v, listed_tools()[k], tool_description(k), tool_properties(k), tool_required(k))
}

fn text_json(s: &str) -> (r: Json)
    ensures
        r@ == JsonView::String(s@),
{
    Json::String(String::from_str(s))
}

fn member(key: &str, v: Json) -> (r: (String, Json))
    ensures
        r.0@ == key@,
        r.1 == v,
{
    (String::from_str(key), v)
}

/// An object from its members.
fn object(m: Vec<(String, Json)>) -> (r: Json)
    ensures
        r@ == JsonView::Object(members_view(m@)),
        members_view(m@).len() == m@.len(),
        forall|i: int| 0 <= i < m@.len() ==> #[trigger] members_view(m@)[i] == (m@[i].0@, m@[i].1@),
{
    proof {
        lemma_members_view_len(m@);
        assert forall|i: int| 0 <= i < m@.len() implies #[trigger] members_view(m@)[i] == (m@[i].0@, m@[i].1@) by {
            lemma_members_view_index(m@, i);
        }
    }
    Json::Object(m)
}

/// A property of an input schema: its type and what it means.
fn property(name: &str, ty: &str, desc: &str) -> (r: (String, Json))
    ensures
        r.0@ == name@,
        r.1@ == property_view(ty@, desc@),
{
    let o = object(vec![member("type", text_json(ty)), member("description", text_json(desc))]);
    assert(o@->Object_0 =~= property_view(ty@, desc@)->Object_0);
    member(name, o)
}

/// A string property that takes one of a few values.
fn choice_property(name: &str, first: &str, second: &str, third: Option<&str>, desc: &str) -> (r: (String, Json))
    ensures
        r.0@ == name@,
        r.1@ == choice_view(
            match third {
                Some(t) => seq![first@, second@, t@],
                None => seq![first@, second@],
            },
            desc@,
        ),
{
    let mut values: Vec<Json> = vec![text_json(first), text_json(second)];
    match third {
        Some(t) => values.push(text_json(t)),
        None => {},
    }
    let ghost choices = match third {
        Some(t) => seq![first@, second@, t@],
        None => seq![first@, second@],
    };
    proof {
        lemma_array_view_len(values@);
        assert forall|i: int| 0 <= i < values@.len() implies #[trigger] array_view(values@)[i] == values@[i]@ by {
            lemma_array_view_index(values@, i);
        }
        assert(array_view(values@) =~= choices.map_values(|v: Seq<char>| JsonView::String(v)));
    }
    let o = object(
        vec![
            member("type", text_json("string")),
            member("enum", Json::Array(values)),
            member("description", text_json(desc)),
        ],
    );
    assert(o@->Object_0 =~= choice_view(choices, desc@)->Object_0);
    member(name, o)
}

/// The characters of an optional string.
pub open spec fn opt_view(o: Option<&str>) -> Option<Seq<char>> {
    match o {
        Some(s) => Some(s@),
        None => None,
    }
}

/// `v` describes a tool called `name`, with description `desc`, schema
/// properties `props` and required argument `required`.
pub open spec fn described(
    v: JsonView,
    name: Seq<char>,
    desc: Seq<char>,
    props: Seq<(Seq<char>, JsonView)>,
    required: Option<Seq<char>>,
) -> bool {
    &&& v matches JsonView::Object(m)
    &&& m.len() == 4
    &&& m[0] == ("name"@, JsonView::String(name))
    &&& m[1] == ("description"@, JsonView::String(desc))
    &&& m[2].0 == "inputSchema"@
    &&& m[3] == ("annotations"@, read_only_hints())
    &&& m[2].1 matches JsonView::Object(s)
    &&& s.len() >= 2
    &&& s[0] == ("type"@, JsonView::String("object"@))
    &&& s[1] == ("properties"@, JsonView::Object(props))
    &&& match required {
        Some(q) => s.len() == 3 && s[2] == ("required"@, JsonView::Array(seq![JsonView::String(q)])),
        None => s.len() == 2,
    }
}

/// The description of a tool from its name, description, properties and
/// required argument.
fn tool_json(name: &str, desc: &str, props: Vec<(String, Json)>, required: Option<&str>) -> (r: Json)
    ensures
        described(r@, name@, desc@, members_view(props@), opt_view(required)),
{
    let props_json = object(props);
    let mut schema: Vec<(String, Json)> = vec![member("type", text_json("object")), member("properties", props_json)];
    match required {
        Some(q) => {
            let list: Vec<Json> = vec![text_json(q)];
            proof {
                lemma_array_view_len(list@);
                lemma_array_view_index(list@, 0);
            }
            let l = Json::Array(list);
            assert(l@ == JsonView::Array(seq![JsonView::String(q@)])) by {
                assert(array_view(list@) =~= seq![JsonView::String(q@)]);
            }
            schema.push(member("required", l));
        },
        None => {},
    }
    let schema_json = object(schema);
    let hints = object(vec![member("readOnlyHint", Json::Bool(true)), member("openWorldHint", Json::Bool(false))]);
    assert(hints@ == read_only_hints()) by {
        assert(hints@->Object_0 =~= seq![("readOnlyHint"@, JsonView::Bool(true)), ("openWorldHint"@, JsonView::Bool(false))]);
    }
    object(
        vec![
            member("name", text_json(name)),
            member("description", text_json(desc)),
            member("inputSchema", schema_json),
            member("annotations", hints),
        ],
    )
}

proof fn lemma_members(m: Seq<(String, Json)>)
    ensures
        members_view(m) == m.map_values(|e: (String, Json)| (e.0@, e.1@)),
{
    lemma_members_view_len(m);
    assert forall|i: int| 0 <= i < m.len() implies #[trigger] members_view(m)[i] == m.map_values(
        |e: (String, Json)| (e.0@, e.1@),
    )[i] by {
        lemma_members_view_index(m, i);
    }
    assert(members_view(m) =~= m.map_values(|e: (String, Json)| (e.0@, e.1@)));
}

/// The answer to `tools/list`: each tool's name, what it does, the arguments
/// it takes and the one it requires, and that it only reads local files.
pub fn tool_definitions() -> (r: Json)
    ensures
        r@ matches JsonView::Array(items) && items.len() == listed_tools().len() && forall|k: int|
            0 <= k < items.len() ==> tool_entry(#[trigger] items[k], k),
{
    let read = vec![
        property("path", "string", "File path (absolute, or relative to server cwd)"),
        choice_property("mode", "slim", "outline", Some("raw"), "Default: slim"),
        property("max_tokens", "integer", "Output token cap (default: env TOKEN_SLIM_MAX_TOKENS or 4000)"),
        property("offset", "integer", "1-based start line"),
        property("limit", "integer", "Number of lines from offset"),
        property("strip_comments", "boolean", "mode=slim only. Default true"),
    ];
    let grep = vec![
        property("pattern", "string", "Regex (Rust syntax). Set literal=true to match verbatim"),
        property("path", "string", "Root dir or single file. Default: cwd"),
        property("ext", "string", "Comma-separated extension filter, e.g. 'rs,toml'"),
        property("max_results", "integer", "Default: env TOKEN_SLIM_GREP_MAX_RESULTS or 50"),
        property("ignore_case", "boolean", "Default false"),
        property("literal", "boolean", "Treat pattern as literal text. Default false"),
    ];
    let map = vec![
        property("path", "string", "Root dir. Default: cwd"),
        property("depth", "integer", "Max depth. Default 3"),
        property("max_entries", "integer", "Total entry cap. Default: env TOKEN_SLIM_DIR_MAX_ENTRIES or 300"),
    ];
    let json = vec![
        property("json", "string", "Inline JSON text (use this OR path)"),
        property("path", "string", "Path to a JSON file (use this OR json)"),
        property("max_depth", "integer", "Default: env TOKEN_SLIM_JSON_MAX_DEPTH or 6"),
        property("max_array", "integer", "Items kept per array. Default: env TOKEN_SLIM_JSON_MAX_ARRAY or 20"),
        property("max_string", "integer", "Chars kept per string. Default: env TOKEN_SLIM_JSON_MAX_STRING or 200"),
    ];
    let text = vec![
        property("text", "string", "Text to compress"),
        choice_property("level", "normal", "aggressive", None, "Default: normal"),
        property("max_tokens", "integer", "Output token cap (default: env TOKEN_SLIM_MAX_TOKENS or 4000)"),
    ];
    let count = vec![
        property("text", "string", "Inline text (use this OR path)"),
        property("path", "string", "File path (use this OR text)"),
    ];
    proof {
        lemma_members(read@);
        lemma_members(grep@);
        lemma_members(map@);
        lemma_members(json@);
        lemma_members(text@);
        lemma_members(count@);
        assert(members_view(read@) =~= tool_properties(0));
        assert(members_view(grep@) =~= tool_properties(1));
        assert(members_view(map@) =~= tool_properties(2));
        assert(members_view(json@) =~= tool_properties(3));
        assert(members_view(text@) =~= tool_properties(4));
        assert(members_view(count@) =~= tool_properties(5));
    }
    let tools: Vec<Json> = vec![
        tool_json(
            "read_slim",
            "Read a file with token-slimming. mode=slim (default) strips comments and collapses blank lines; mode=outline returns only function/class/heading signatures with line numbers; mode=raw returns text as-is. Output is capped at max_tokens (head+tail kept, middle snipped). Use this INSTEAD of a plain file read to save tokens.",
            read,
            Some("path"),
        ),
        tool_json(
            "grep_slim",
            "Regex search over a directory tree with minimal output: 'path:line:matched-line' only, capped result count, binary/vendor dirs skipped. Use this INSTEAD of a plain grep/search to save tokens.",
            grep,
            Some("pattern"),
        ),
        tool_json(
            "dir_map",
            "Compact directory tree (one line per entry, file sizes, vendor dirs skipped, entry-capped). Use this INSTEAD of ls -R / find to save tokens.",
            map,
            None,
        ),
        tool_json(
            "json_slim",
            "Minify and prune JSON (from text or file): depth limit, arrays sampled to first N items, long strings truncated. Ideal for large API responses / package-lock style files.",
            json,
            None,
        ),
        tool_json(
            "text_slim",
            "Compress arbitrary text: trim trailing whitespace, collapse blank lines; level=aggressive also collapses inner space runs and repeated lines. Use before quoting long logs/output back into context.",
            text,
            Some("text"),
        ),
        tool_json(
            "token_count",
            "Estimate token count of text or a file (heuristic: ascii/4 + non-ascii, ±20%, model-agnostic). Use to decide whether something is worth pasting into context.",
            count,
            None,
        ),
    ];
    proof {
        lemma_array_view_len(tools@);
        assert forall|k: int| 0 <= k < tools@.len() implies tool_entry(#[trigger] array_view(tools@)[k], k) by {
            lemma_array_view_index(tools@, k);
        }
    }
    Json::Array(tools)
}

// ---------------------------------------------------------------------------
// Initialization
// ---------------------------------------------------------------------------

/// The protocol version the server answers with when the client names none.
pub const DEFAULT_PROTOCOL_VERSION: &'static str = "2025-06-18";

/// What the server tells a client about how to use it.
pub const INSTRUCTIONS: &'static str = "Token-saving tools. Prefer these over raw file reads/searches: read_slim (file read, comments/blanks stripped, capped), grep_slim (compact search), dir_map (compact tree), json_slim (prune/minify JSON), text_slim (compress text), token_count (estimate tokens).";

/// The answer to `initialize`: the protocol version the client asked for (or
/// the default), a tools capability, the server's name, title and `version`,
/// and the usage instructions.
pub open spec fn initialize_view(requested: Option<Seq<char>>, version: Seq<char>) -> JsonView {
    let pv = match requested {
        Some(v) => v,
        None => DEFAULT_PROTOCOL_VERSION@,
    };
    JsonView::Object(
        seq![
            ("protocolVersion"@, JsonView::String(pv)),
            ("capabilities"@, JsonView::Object(seq![("tools"@, JsonView::Object(seq![]))])),
            (
                "serverInfo"@,
                JsonView::Object(
                    seq![
                        ("name"@, JsonView::String("token-slim-mcp"@)),
                        ("title"@, JsonView::String("Token Slim MCP"@)),
                        ("version"@, JsonView::String(version)),
                    ],
                ),
            ),
            ("instructions"@, JsonView::String(INSTRUCTIONS@)),
        ],
    )
}

/// The answer to `initialize` for a client that asked for protocol version
/// `requested`, from a server at `version`.
pub fn initialize_result(requested: Option<&str>, version: &str) -> (r: Json)
    ensures
        r@ == initialize_view(opt_view(requested), version@),
{
    let pv = match requested {
        Some(v) => v,
        None => DEFAULT_PROTOCOL_VERSION,
    };
    let tools = object(vec![]);
    let caps = object(vec![member("tools", tools)]);
    let info = object(
        vec![
            member("name", text_json("token-slim-mcp")),
            member("title", text_json("Token Slim MCP")),
            member("version", text_json(version)),
        ],
    );
    let r = object(
        vec![
            member("protocolVersion", text_json(pv)),
            member("capabilities", caps),
            member("serverInfo", info),
            member("instructions", text_json(INSTRUCTIONS)),
        ],
    );
    assert(r@->Object_0 =~= initialize_view(opt_view(requested), version@)->Object_0) by {
        assert(tools@->Object_0 =~= Seq::<(Seq<char>, JsonView)>::empty());
        assert(caps@->Object_0 =~= seq![("tools"@, JsonView::Object(seq![]))]);
        assert(info@->Object_0 =~= seq![
            ("name"@, JsonView::String("token-slim-mcp"@)),
            ("title"@, JsonView::String("Token Slim MCP"@)),
            ("version"@, JsonView::String(version@)),
        ]);
    }
    r
}

// ---------------------------------------------------------------------------
// Replies
// ---------------------------------------------------------------------------

/// The error code for a line that is not JSON.
pub const PARSE_ERROR: i64 = -32700;

/// The error code for a method the server does not know.
pub const METHOD_NOT_FOUND: i64 = -32601;

/// The error code for a tool call that names no tool or an unknown one.
pub const INVALID_PARAMS: i64 = -32602;

/// An integer as JSON writes it.
pub open spec fn signed_decimal(n: int) -> Seq<char> {
    if n < 0 {
        seq!['-'] + decimal((-n) as nat)
    } else {
        decimal(n as nat)
    }
}

/// The reply to a request with id `id`: its result, or its error code and message.
pub open spec fn reply_view(id: JsonView, outcome: Result<JsonView, (int, Seq<char>)>) -> JsonView {
    match outcome {
        Ok(r) => JsonView::Object(
            seq![("jsonrpc"@, JsonView::String("2.0"@)), ("id"@, id), ("result"@, r)],
        ),
        Err((code, message)) => JsonView::Object(
            seq![
                ("jsonrpc"@, JsonView::String("2.0"@)),
                ("id"@, id),
                (
                    "error"@,
                    JsonView::Object(
                        seq![
                            ("code"@, JsonView::Number(signed_decimal(code))),
                            ("message"@, JsonView::String(message)),
                        ],
                    ),
                ),
            ],
        ),
    }
}

/// The content of an outcome: views of the result, or the code and message.
pub open spec fn outcome_view(outcome: Result<Json, (i64, String)>) -> Result<JsonView, (int, Seq<char>)> {
    match outcome {
        Ok(j) => Ok(j@),
        Err((c, m)) => Err((c as int, m@)),
    }
}

/// The reply to the request with id `id`.
pub fn reply(id: Json, outcome: Result<Json, (i64, String)>) -> (r: Json)
    ensures
        r@ == reply_view(id@, outcome_view(outcome)),
{
    let ghost ov = outcome_view(outcome);
    let ghost iv = id@;
    match outcome {
        Ok(result) => {
            let r = object(vec![member("jsonrpc", text_json("2.0")), member("id", id), member("result", result)]);
            assert(r@->Object_0 =~= reply_view(iv, ov)->Object_0);
            r
        },
        Err((code, message)) => {
            let mut digits: Vec<char> = Vec::new();
            if code < 0 {
                digits.push('-');
                push_decimal(&mut digits, (-(code as i128)) as u128);
            } else {
                push_decimal(&mut digits, code as u128);
            }
            assert(digits@ =~= signed_decimal(code as int));
            let err = object(
                vec![
                    member("code", Json::Number(string_from_chars(&digits))),
                    member("message", Json::String(message)),
                ],
            );
            let r = object(vec![member("jsonrpc", text_json("2.0")), member("id", id), member("error", err)]);
            assert(r@->Object_0 =~= reply_view(iv, ov)->Object_0) by {
                assert(err@->Object_0 =~= seq![
                    ("code"@, JsonView::Number(signed_decimal(code as int))),
                    ("message"@, JsonView::String(ov->Err_0.1)),
                ]);
            }
            r
        },
    }
}

/// A message without an id, or with a null one, is a notification.
pub open spec fn is_notification(id: Option<JsonView>) -> bool {
    match id {
        None => true,
        Some(i) => i is Null,
    }
}

/// The views of an optional id.
pub open spec fn id_view(id: Option<Json>) -> Option<JsonView> {
    match id {
        Some(i) => Some(i@),
        None => None,
    }
}

/// What the server writes back for a request with id `id` once it has its
/// outcome: nothing for a notification, else the reply.
pub fn respond(id: Option<Json>, outcome: Result<Json, (i64, String)>) -> (r: Option<Json>)
    ensures
        match r {
            None => is_notification(id_view(id)),
            Some(v) => !is_notification(id_view(id)) && v@ == reply_view(id_view(id).unwrap(), outcome_view(outcome)),
        },
{
    match id {
        None => None,
        Some(Json::Null) => None,
        Some(i) => Some(reply(i, outcome)),
    }
}

/// The reply to a line that is not JSON, with what the parser said of it.
pub fn parse_error_reply(detail: &str) -> (r: Json)
    ensures
        r@ == reply_view(JsonView::Null, Err((PARSE_ERROR as int, "parse error: "@ + detail@))),
{
    let mut m: Vec<char> = Vec::new();
    push_str(&mut m, "parse error: ");
    push_str(&mut m, detail);
    reply(Json::Null, Err((PARSE_ERROR, string_from_chars(&m))))
}

/// The error for a method the server does not know.
pub fn method_not_found(method: &str) -> (r: (i64, String))
    ensures
        r.0 == METHOD_NOT_FOUND,
        r.1@ == "method not found: "@ + method@,
{
    let mut m: Vec<char> = Vec::new();
    push_str(&mut m, "method not found: ");
    push_str(&mut m, method);
    (METHOD_NOT_FOUND, string_from_chars(&m))
}

/// The error for a tool call that names no tool, or names `name`, which is
/// not a tool.
pub fn tool_call_error(name: Option<&str>) -> (r: (i64, String))
    ensures
        r.0 == INVALID_PARAMS,
        r.1@ == match name {
            Some(n) => "unknown tool: "@ + n@,
            None => "missing tool name"@,
        },
{
    let mut m: Vec<char> = Vec::new();
    match name {
        Some(n) => {
            push_str(&mut m, "unknown tool: ");
            push_str(&mut m, n);
        },
        None => push_str(&mut m, "missing tool name"),
    }
    (INVALID_PARAMS, string_from_chars(&m))
}

/// The result of a tool call: the tool's text, or its complaint marked as an error.
pub open spec fn tool_reply_view(outcome: Result<Seq<char>, Seq<char>>) -> JsonView {
    match outcome {
        Ok(text) => JsonView::Object(
            seq![
                (
                    "content"@,
                    JsonView::Array(
                        seq![
                            JsonView::Object(
                                seq![("type"@, JsonView::String("text"@)), ("text"@, JsonView::String(text))],
                            ),
                        ],
                    ),
                ),
            ],
        ),
        Err(e) => JsonView::Object(
            seq![
                (
                    "content"@,
                    JsonView::Array(
                        seq![
                            JsonView::Object(
                                seq![
                                    ("type"@, JsonView::String("text"@)),
                                    ("text"@, JsonView::String("error: "@ + e)),
                                ],
                            ),
                        ],
                    ),
                ),
                ("isError"@, JsonView::Bool(true)),
            ],
        ),
    }
}

/// The result of a tool call whose tool answered `outcome`.
pub fn tool_reply(outcome: Result<String, String>) -> (r: Json)
    ensures
        r@ == tool_reply_view(
            match outcome {
                Ok(t) => Ok(t@),
                Err(e) => Err(e@),
            },
        ),
{
    let (text, failed) = match outcome {
        Ok(t) => (t, false),
        Err(e) => {
            let mut m: Vec<char> = Vec::new();
            push_str(&mut m, "error: ");
            push_str(&mut m, e.as_str());
            (string_from_chars(&m), true)
        },
    };
    let ghost tv = text@;
    let item = object(vec![member("type", text_json("text")), member("text", Json::String(text))]);
    let list: Vec<Json> = vec![item];
    proof {
        lemma_array_view_len(list@);
        lemma_array_view_index(list@, 0);
    }
    let content = Json::Array(list);
    assert(content@->Array_0 =~= seq![
        JsonView::Object(seq![("type"@, JsonView::String("text"@)), ("text"@, JsonView::String(tv))]),
    ]) by {
        assert(item@->Object_0 =~= seq![("type"@, JsonView::String("text"@)), ("text"@, JsonView::String(tv))]);
    }
    if failed {
        let r = object(vec![member("content", content), member("isError", Json::Bool(true))]);
        assert(r@->Object_0 =~= seq![
            ("content"@, content@),
            ("isError"@, JsonView::Bool(true)),
        ]);
        r
    } else {
        let r = object(vec![member("content", content)]);
        assert(r@->Object_0 =~= seq![("content"@, content@)]);
        r
    }
}

} // verus!
