use simpler_notes::json::Json;
use simpler_notes::rpc::{
    ContentItem, Dispatcher, Handled, InputSchema, JsonRpcRequest, JsonRpcResponse, ParamDef, ToolCall, ToolInfo,
};

fn num(n: &str) -> Json {
    Json::Number(n.to_string())
}

fn text(t: &str) -> Json {
    Json::Str(t.to_string())
}

fn obj(members: Vec<(&str, Json)>) -> Json {
    Json::Object(members.into_iter().map(|(k, v)| (k.to_string(), v)).collect())
}

fn req(id: &str, method: &str, params: Option<Json>) -> JsonRpcRequest {
    JsonRpcRequest { id: Some(num(id)), method: method.to_string(), params }
}

fn notification(method: &str) -> JsonRpcRequest {
    JsonRpcRequest { id: None, method: method.to_string(), params: None }
}

fn info(desc: &str) -> ToolInfo {
    ToolInfo { description: desc.to_string(), input_schema: obj(vec![]) }
}

fn make_dispatcher() -> Dispatcher {
    let mut d = Dispatcher::new();
    d.register(
        "ping",
        ToolInfo {
            description: "Ping the server".to_string(),
            input_schema: obj(vec![("type", text("object")), ("properties", obj(vec![]))]),
        },
    );
    d
}

fn str_of(j: Option<&Json>) -> Option<String> {
    j.and_then(|v| v.as_str()).map(|s| s.clone())
}

fn answer(h: Handled) -> JsonRpcResponse {
    match h {
        Handled::Answer(Some(r)) => r,
        _ => panic!("expected an answer"),
    }
}

fn run(h: Handled) -> ToolCall {
    match h {
        Handled::Run(c) => c,
        _ => panic!("expected a tool to run"),
    }
}

#[test]
fn test_new_dispatcher_empty() {
    let d = Dispatcher::new();
    assert!(d.tools.is_empty());
}

#[test]
fn test_register_and_dispatch_legacy() {
    let mut d = Dispatcher::new();
    d.register("ping", info(""));
    let call = run(d.handle_jsonrpc(req("1", "ping", None)));
    assert_eq!(call.name, "ping");
    assert!(!call.wrapped);
    let resp = Dispatcher::finish_call(call, Ok(text("pong")));
    assert_eq!(str_of(resp.result.as_ref()), Some("pong".to_string()));
}

#[test]
fn test_register_overwrites() {
    let mut d = Dispatcher::new();
    d.register("x", info("first"));
    d.register("x", info("second"));
    assert_eq!(d.tools.len(), 1);
    assert_eq!(d.tools[0].1.description, "second");
    let call = run(d.handle_jsonrpc(req("1", "x", None)));
    let resp = Dispatcher::finish_call(call, Ok(text("second")));
    assert_eq!(str_of(resp.result.as_ref()), Some("second".to_string()));
}

#[test]
fn dispatcher_test_method_not_found() {
    let mut d = make_dispatcher();
    let resp = answer(d.handle_jsonrpc(req("1", "nonexistent", None)));
    let err = resp.error.unwrap();
    assert_eq!(err.code, -32601);
    assert_eq!(err.message, "Method not found: nonexistent");
}

#[test]
fn dispatcher_test_initialize() {
    let mut d = Dispatcher::new();
    let resp = answer(d.handle_jsonrpc(req("1", "initialize", Some(obj(vec![("protocolVersion", text("2024-11-05"))])))));
    let result = resp.result.unwrap();
    assert_eq!(str_of(result.get("protocolVersion")), Some("2024-11-05".to_string()));
    assert!(matches!(result.get("capabilities").and_then(|c| c.get("tools")), Some(Json::Object(_))));
    assert_eq!(str_of(result.get("serverInfo").and_then(|s| s.get("name"))), Some("simpler-notes-mcp".to_string()));
}

#[test]
fn test_initialize_default_version() {
    let mut d = Dispatcher::new();
    let resp = answer(d.handle_jsonrpc(req("1", "initialize", None)));
    let result = resp.result.unwrap();
    assert_eq!(str_of(result.get("protocolVersion")), Some("unknown".to_string()));
}

#[test]
fn dispatcher_test_tools_list() {
    let mut d = make_dispatcher();
    let resp = answer(d.handle_jsonrpc(req("1", "tools/list", None)));
    let result = resp.result.unwrap();
    let tools = match result.get("tools") {
        Some(Json::Array(v)) => v,
        _ => panic!("tools is no array"),
    };
    assert_eq!(tools.len(), 1);
    assert_eq!(str_of(tools[0].get("name")), Some("ping".to_string()));
    assert_eq!(str_of(tools[0].get("description")), Some("Ping the server".to_string()));
    assert!(tools[0].get("input_schema").is_some());
}

#[test]
fn test_tools_call() {
    let mut d = make_dispatcher();
    let call = run(d.handle_jsonrpc(req("1", "tools/call", Some(obj(vec![("name", text("ping")), ("arguments", Json::Null)])))));
    assert!(call.wrapped);
    assert!(matches!(call.params, Some(Json::Null)));
    let resp = Dispatcher::finish_call(call, Ok(text("pong")));
    let result = resp.result.unwrap();
    assert!(matches!(result.get("isError"), Some(Json::Bool(false))));
    let content = match result.get("content") {
        Some(Json::Array(v)) => v,
        _ => panic!("content is no array"),
    };
    assert_eq!(str_of(content[0].get("type")), Some("text".to_string()));
    assert_eq!(str_of(content[0].get("text")), Some("\"pong\"".to_string()));
}

#[test]
fn test_tools_call_missing_name() {
    let mut d = make_dispatcher();
    let resp = answer(d.handle_jsonrpc(req("1", "tools/call", Some(obj(vec![])))));
    let err = resp.error.unwrap();
    assert_eq!(err.code, -32602);
    assert_eq!(err.message, "Missing parameter: name");
}

#[test]
fn test_tools_call_not_found() {
    let mut d = make_dispatcher();
    let resp = answer(d.handle_jsonrpc(req("1", "tools/call", Some(obj(vec![("name", text("ghost"))])))));
    let result = resp.result.unwrap();
    assert!(matches!(result.get("isError"), Some(Json::Bool(true))));
    let content = match result.get("content") {
        Some(Json::Array(v)) => v,
        _ => panic!("content is no array"),
    };
    assert_eq!(str_of(content[0].get("text")), Some("Tool not found: ghost".to_string()));
}

#[test]
fn test_tools_call_tool_error() {
    let mut d = Dispatcher::new();
    d.register("failing", info(""));
    let call = run(d.handle_jsonrpc(req("1", "tools/call", Some(obj(vec![("name", text("failing"))])))));
    let resp = Dispatcher::finish_call(call, Err((-1, "something broke".to_string())));
    let result = resp.result.unwrap();
    assert!(matches!(result.get("isError"), Some(Json::Bool(true))));
}

#[test]
fn test_notification_returns_none() {
    let mut d = Dispatcher::new();
    let resp = d.handle_jsonrpc(notification("notifications/initialized"));
    assert!(matches!(resp, Handled::Answer(None)));
    assert!(d.initialized);
}

#[test]
fn legacy_tool_error_keeps_code() {
    let mut d = Dispatcher::new();
    d.register("x", info(""));
    let call = run(d.handle_jsonrpc(req("7", "x", Some(obj(vec![])))));
    let resp = Dispatcher::finish_call(call, Err((-32602, "Missing parameters".to_string())));
    let err = resp.error.unwrap();
    assert_eq!(err.code, -32602);
    assert_eq!(err.message, "Missing parameters");
}

#[test]
fn responses_as_json() {
    let ok = JsonRpcResponse::success(Some(num("1")), text("ok"));
    let j = ok.to_json();
    assert_eq!(str_of(j.get("jsonrpc")), Some("2.0".to_string()));
    assert!(matches!(j.get("id"), Some(Json::Number(n)) if n == "1"));
    assert_eq!(str_of(j.get("result")), Some("ok".to_string()));
    assert!(j.get("error").is_none());

    let no_id = JsonRpcResponse::success(None, text("ok")).to_json();
    assert!(no_id.get("id").is_none());

    let err = JsonRpcResponse::error(Some(num("42")), -32601, "Method not found".to_string()).to_json();
    assert!(err.get("result").is_none());
    let e = err.get("error").unwrap();
    assert!(matches!(e.get("code"), Some(Json::Number(n)) if n == "-32601"));
    assert_eq!(str_of(e.get("message")), Some("Method not found".to_string()));

    assert_eq!(JsonRpcResponse::parse_error(None, "x").error.unwrap().message, "Parse error: x");
    assert_eq!(JsonRpcResponse::method_not_found(None, "m").error.unwrap().code, -32601);
    assert_eq!(JsonRpcResponse::invalid_params(None, "p").error.unwrap().message, "Invalid params: p");
    assert_eq!(JsonRpcResponse::internal_error(None, "i").error.unwrap().code, -32000);
}

#[test]
fn schema_lists_required_params() {
    let input = InputSchema::new(vec![
        ParamDef { name: "query".to_string(), description: "Search query string".to_string(), required: true },
        ParamDef { name: "path".to_string(), description: "Where".to_string(), required: false },
    ]);
    let schema = input.to_json_schema();
    assert_eq!(str_of(schema.get("type")), Some("object".to_string()));
    let q = schema.get("properties").and_then(|p| p.get("query")).unwrap();
    assert_eq!(str_of(q.get("type")), Some("string".to_string()));
    assert_eq!(str_of(q.get("description")), Some("Search query string".to_string()));
    match schema.get("required") {
        Some(Json::Array(v)) => {
            assert_eq!(v.len(), 1);
            assert_eq!(str_of(Some(&v[0])), Some("query".to_string()));
        },
        _ => panic!("required is no array"),
    }
    let mut d = Dispatcher::new();
    d.register_generic("search_notes", "Search notes", &input);
    assert_eq!(d.tools[0].0, "search_notes");
    let item = ContentItem { content_type: "text".to_string(), text: "t".to_string() }.to_json();
    assert_eq!(str_of(item.get("type")), Some("text".to_string()));
}

#[test]
fn test_success_response() {
    let resp = JsonRpcResponse::success(Some(num("1")), text("ok"));
    let json = resp.to_json();
    assert_eq!(str_of(json.get("jsonrpc")), Some("2.0".to_string()));
    assert!(matches!(json.get("id"), Some(Json::Number(n)) if n == "1"));
    assert_eq!(str_of(json.get("result")), Some("ok".to_string()));
    assert!(json.get("error").is_none());
}

#[test]
fn test_success_response_no_id() {
    let resp = JsonRpcResponse::success(None, text("ok"));
    let json = resp.to_json();
    assert_eq!(str_of(json.get("jsonrpc")), Some("2.0".to_string()));
    assert!(json.get("id").is_none());
    assert_eq!(str_of(json.get("result")), Some("ok".to_string()));
}

#[test]
fn test_error_response() {
    let resp = JsonRpcResponse::error(Some(num("42")), -32601, "Method not found".to_string());
    let json = resp.to_json();
    assert!(matches!(json.get("id"), Some(Json::Number(n)) if n == "42"));
    assert!(json.get("result").is_none());
    let error = json.get("error").unwrap();
    assert!(matches!(error.get("code"), Some(Json::Number(n)) if n == "-32601"));
    assert_eq!(str_of(error.get("message")), Some("Method not found".to_string()));
}

#[test]
fn tool_result_text_is_compact_json() {
    let mut d = make_dispatcher();
    let call = run(d.handle_jsonrpc(req("1", "tools/call", Some(obj(vec![("name", text("ping"))])))));
    let value = obj(vec![("b", Json::Array(vec![text("x"), Json::Null])), ("a", num("1"))]);
    let result = Dispatcher::finish_call(call, Ok(value)).result.unwrap();
    let content = match result.get("content") {
        Some(Json::Array(v)) => v,
        _ => panic!("content is no array"),
    };
    assert_eq!(str_of(content[0].get("text")), Some("{\"a\":1,\"b\":[\"x\",null]}".to_string()));
}
