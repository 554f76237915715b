use token_slim::json::Json;
use token_slim::protocol::{
    initialize_result, method_not_found, parse_error_reply, reply, respond, route_method, tool_call_error,
    tool_definitions, tool_named, tool_reply, Route, Tool, DEFAULT_PROTOCOL_VERSION,
    INVALID_PARAMS, METHOD_NOT_FOUND, PARSE_ERROR,
};
use token_slim::slim::{prune_json, JsonOpts};
use token_slim::tools::{json_slim_report, text_slim_report, token_count_report};

fn text(s: &str) -> Json {
    Json::String(s.to_string())
}

fn obj(members: Vec<(&str, Json)>) -> Json {
    Json::Object(members.into_iter().map(|(k, v)| (k.to_string(), v)).collect())
}

fn get<'a>(j: &'a Json, key: &str) -> Option<&'a Json> {
    match j {
        Json::Object(m) => m.iter().find(|(k, _)| k == key).map(|(_, v)| v),
        _ => None,
    }
}

#[test]
fn tools_list_names_every_tool() {
    let defs = tool_definitions();
    let Json::Array(items) = &defs else { panic!("tools/list answers an array") };
    let names: Vec<String> = items
        .iter()
        .map(|t| match get(t, "name") {
            Some(Json::String(s)) => s.clone(),
            _ => panic!("a tool without a name"),
        })
        .collect();
    assert_eq!(names, vec!["read_slim", "grep_slim", "dir_map", "json_slim", "text_slim", "token_count"]);
    for n in &names {
        assert!(tool_named(n).is_some(), "listed tool {n} cannot be called");
    }
    let read = &items[0];
    let schema = get(read, "inputSchema").unwrap();
    assert_eq!(get(schema, "type"), Some(&text("object")));
    assert_eq!(get(schema, "required"), Some(&Json::Array(vec![text("path")])));
    let props = get(schema, "properties").unwrap();
    let Json::Object(p) = props else { panic!("properties is an object") };
    let keys: Vec<&str> = p.iter().map(|(k, _)| k.as_str()).collect();
    assert_eq!(keys, vec!["path", "mode", "max_tokens", "offset", "limit", "strip_comments"]);
    assert_eq!(
        get(get(props, "mode").unwrap(), "enum"),
        Some(&Json::Array(vec![text("slim"), text("outline"), text("raw")]))
    );
    assert_eq!(get(get(&items[2], "inputSchema").unwrap(), "required"), None);
    assert_eq!(
        get(read, "annotations"),
        Some(&obj(vec![("readOnlyHint", Json::Bool(true)), ("openWorldHint", Json::Bool(false))]))
    );
}

#[test]
fn initialize_echoes_or_defaults_version() {
    let r = initialize_result(None, "1.2.3");
    assert_eq!(get(&r, "protocolVersion"), Some(&text("2025-06-18")));
    assert_eq!(DEFAULT_PROTOCOL_VERSION, "2025-06-18");
    let info = get(&r, "serverInfo").unwrap();
    assert_eq!(get(info, "name"), Some(&text("token-slim-mcp")));
    assert_eq!(get(info, "version"), Some(&text("1.2.3")));
    assert_eq!(get(&r, "capabilities"), Some(&obj(vec![("tools", obj(vec![]))])));
    let asked = initialize_result(Some("2024-11-05"), "1.2.3");
    assert_eq!(get(&asked, "protocolVersion"), Some(&text("2024-11-05")));
}

#[test]
fn replies_carry_result_or_error() {
    let ok = reply(Json::Number("7".to_string()), Ok(obj(vec![])));
    assert_eq!(
        ok,
        obj(vec![("jsonrpc", text("2.0")), ("id", Json::Number("7".to_string())), ("result", obj(vec![]))])
    );
    let err = reply(text("a"), Err(method_not_found("nope")));
    assert_eq!(
        err,
        obj(vec![
            ("jsonrpc", text("2.0")),
            ("id", text("a")),
            ("error", obj(vec![("code", Json::Number("-32601".to_string())), ("message", text("method not found: nope"))])),
        ])
    );
    assert_eq!(METHOD_NOT_FOUND, -32601);
    let pe = parse_error_reply("EOF while parsing");
    assert_eq!(get(&pe, "id"), Some(&Json::Null));
    assert_eq!(
        get(&pe, "error"),
        Some(&obj(vec![("code", Json::Number("-32700".to_string())), ("message", text("parse error: EOF while parsing"))]))
    );
    assert_eq!(PARSE_ERROR, -32700);
    let positive = reply(Json::Null, Err((12, "x".to_string())));
    assert_eq!(get(get(&positive, "error").unwrap(), "code"), Some(&Json::Number("12".to_string())));
}

#[test]
fn tool_call_errors() {
    assert_eq!(tool_call_error(None), (INVALID_PARAMS, "missing tool name".to_string()));
    assert_eq!(tool_call_error(Some("nope")), (-32602, "unknown tool: nope".to_string()));
}

#[test]
fn tool_replies() {
    let ok = tool_reply(Ok("hi".to_string()));
    assert_eq!(
        ok,
        obj(vec![("content", Json::Array(vec![obj(vec![("type", text("text")), ("text", text("hi"))])]))])
    );
    let bad = tool_reply(Err("path is required".to_string()));
    assert_eq!(
        bad,
        obj(vec![
            ("content", Json::Array(vec![obj(vec![("type", text("text")), ("text", text("error: path is required"))])])),
            ("isError", Json::Bool(true)),
        ])
    );
}

fn to_value(j: &Json) -> serde_json::Value {
    match j {
        Json::Null => serde_json::Value::Null,
        Json::Bool(b) => serde_json::Value::Bool(*b),
        Json::Number(n) => serde_json::Value::Number(n.parse().unwrap()),
        Json::String(s) => serde_json::Value::String(s.clone()),
        Json::Array(a) => serde_json::Value::Array(a.iter().map(to_value).collect()),
        Json::Object(m) => {
            let mut out = serde_json::Map::new();
            for (k, v) in m {
                out.insert(k.clone(), to_value(v));
            }
            serde_json::Value::Object(out)
        }
    }
}

fn to_json(v: &serde_json::Value) -> Json {
    match v {
        serde_json::Value::Null => Json::Null,
        serde_json::Value::Bool(b) => Json::Bool(*b),
        serde_json::Value::Number(n) => Json::Number(n.to_string()),
        serde_json::Value::String(s) => Json::String(s.clone()),
        serde_json::Value::Array(a) => Json::Array(a.iter().map(to_json).collect()),
        serde_json::Value::Object(m) => Json::Object(m.iter().map(|(k, x)| (k.clone(), to_json(x))).collect()),
    }
}

/// The server's answers to a session, message by message, as the library
/// computes them.
#[test]
fn session_answers() {
    // initialize
    assert_eq!(route_method("initialize"), Route::Initialize);
    let r = to_value(&reply(Json::Number("1".to_string()), Ok(initialize_result(Some("2025-06-18"), "0.1.0"))));
    assert_eq!(r["id"], 1);
    assert_eq!(r["result"]["serverInfo"]["name"], "token-slim-mcp");
    assert_eq!(r["result"]["protocolVersion"], "2025-06-18");

    // the initialized notification gets no answer
    assert_eq!(route_method("notifications/initialized"), Route::Ignore);

    // tools/list
    assert_eq!(route_method("tools/list"), Route::ListTools);
    let list = Json::Object(vec![("tools".to_string(), tool_definitions())]);
    let r = to_value(&reply(Json::Number("2".to_string()), Ok(list)));
    let tools = r["result"]["tools"].as_array().unwrap();
    assert_eq!(tools.len(), 6);
    let names: Vec<&str> = tools.iter().map(|t| t["name"].as_str().unwrap()).collect();
    for expected in ["read_slim", "grep_slim", "dir_map", "json_slim", "text_slim", "token_count"] {
        assert!(names.contains(&expected), "missing tool {expected}");
    }

    // text_slim
    assert_eq!(tool_named("text_slim"), Some(Tool::TextSlim));
    let r = to_value(&reply(Json::Number("3".to_string()), Ok(tool_reply(Ok(text_slim_report("a   \n\n\n\nb\n", None, 4000))))));
    let text = r["result"]["content"][0]["text"].as_str().unwrap();
    assert!(text.starts_with("[token-slim]"), "got: {text}");
    assert!(text.contains("a\n\nb"), "got: {text}");

    // json_slim with two items kept per array
    let input = "{\"a\":[1,2,3,4,5],\"b\":\"hello\"}";
    let o = JsonOpts { max_depth: 6, max_array: 2, max_string: 200 };
    let parsed = to_json(&serde_json::from_str(input).unwrap());
    let out = serde_json::to_string(&to_value(&prune_json(&parsed, o.max_depth, &o))).unwrap();
    let r = to_value(&tool_reply(Ok(json_slim_report(&o, input, &out))));
    let text = r["content"][0]["text"].as_str().unwrap();
    assert!(text.contains("…+3 more items"), "got: {text}");

    // token_count
    let r = to_value(&tool_reply(Ok(token_count_report("text", "hello world, this is a test"))));
    assert!(r["content"][0]["text"].as_str().unwrap().contains("tokens"));

    // an unknown tool is a protocol error
    assert_eq!(tool_named("nope"), None);
    let r = to_value(&reply(Json::Number("6".to_string()), Err(tool_call_error(Some("nope")))));
    assert_eq!(r["error"]["code"], -32602);

    // a tool that fails answers a result marked as an error
    let r = to_value(&reply(Json::Number("7".to_string()), Ok(tool_reply(Err("cannot read /no/such/file.xyz".to_string())))));
    assert_eq!(r["result"]["isError"], true);

    // ping
    assert_eq!(route_method("ping"), Route::Ping);
    let r = to_value(&reply(Json::Number("8".to_string()), Ok(Json::Object(vec![]))));
    assert_eq!(r["id"], 8);
}

#[test]
fn notifications_get_no_answer() {
    assert_eq!(respond(None, Ok(obj(vec![]))), None);
    assert_eq!(respond(Some(Json::Null), Err(method_not_found("x"))), None);
    assert_eq!(
        respond(Some(Json::Number("4".to_string())), Ok(obj(vec![]))),
        Some(reply(Json::Number("4".to_string()), Ok(obj(vec![]))))
    );
}
