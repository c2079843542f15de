//! The tool server's JSON-RPC layer: the messages, the tool registry and
//! how a request is answered. Running a tool is left to the program: a
//! request for one comes back as a call to make, and its outcome is handed
//! back to be answered.
use vstd::prelude::*;
use crate::json::{Json, JsonView, jstr, field, text_of, member_views, element_views, lemma_array_view, lemma_object_view, json_text, json_text_of};
use crate::text::push_str;

verus! {

/// A request (or, without an id, a notification).
pub struct JsonRpcRequest {
    pub id: Option<Json>,
    pub method: String,
    pub params: Option<Json>,
}

/// An error answer: its code and message.
#[derive(Debug)]
pub struct JsonRpcError {
    pub code: i32,
    pub message: String,
}

/// An answer to a request: a result or an error.
pub struct JsonRpcResponse {
    pub jsonrpc: String,
    pub id: Option<Json>,
    pub result: Option<Json>,
    pub error: Option<JsonRpcError>,
}

/// An item of a tool call's content.
pub struct ContentItem {
    pub content_type: String,
    pub text: String,
}

/// A tool as `tools/list` describes it.
pub struct ToolDescription {
    pub name: String,
    pub description: String,
    pub input_schema: Json,
}

/// A parameter a tool takes.
pub struct ParamDef {
    pub name: String,
    pub description: String,
    pub required: bool,
}

/// The parameters a tool takes.
pub struct InputSchema {
    pub params: Vec<ParamDef>,
}

/// What the registry knows of a tool: its description and the JSON schema
/// of its input.
pub struct ToolInfo {
    pub description: String,
    pub input_schema: Json,
}

/// A tool to run: the answer waits for its outcome.
pub struct ToolCall {
    /// The request's id.
    pub id: Json,
    /// The tool's name.
    pub name: String,
    /// What the tool is given.
    pub params: Option<Json>,
    /// Whether the request was `tools/call`, whose answer wraps the
    /// outcome as content, rather than the tool's own method name.
    pub wrapped: bool,
}

/// What the dispatcher makes of a request: an answer (none for a
/// notification), or a tool to run first.
pub enum Handled {
    Answer(Option<JsonRpcResponse>),
    Run(ToolCall),
}

/// The registry of tools, by name.
pub struct Dispatcher {
    pub tools: Vec<(String, ToolInfo)>,
    pub initialized: bool,
}

// ---------------------------------------------------------------- views

/// An optional value as plain values.
pub open spec fn opt_view(v: Option<Json>) -> Option<JsonView> {
    match v {
        Some(j) => Some(j@),
        None => None,
    }
}

/// An answer as plain values: version, id, result, error (code, message).
pub type ResponseView = (Seq<char>, Option<JsonView>, Option<JsonView>, Option<(i32, Seq<char>)>);

impl View for JsonRpcResponse {
    type V = ResponseView;

    open spec fn view(&self) -> ResponseView {
        (
            self.jsonrpc@,
            opt_view(self.id),
            opt_view(self.result),
            match self.error {
                Some(e) => Some((e.code, e.message@)),
                None => None,
            },
        )
    }
}

/// The registry as plain values: name, description, schema.
pub open spec fn registry(tools: Seq<(String, ToolInfo)>) -> Seq<(Seq<char>, Seq<char>, JsonView)> {
    Seq::new(tools.len(), |i: int| (tools[i].0@, tools[i].1.description@, tools[i].1.input_schema@))
}

/// Position of the first tool named `name` from `i` on.
pub open spec fn tool_from(r: Seq<(Seq<char>, Seq<char>, JsonView)>, name: Seq<char>, i: int) -> Option<int>
    decreases r.len() - i,
{
    if i < 0 || i >= r.len() {
        None
    } else if r[i].0 == name {
        Some(i)
    } else {
        tool_from(r, name, i + 1)
    }
}

/// Position of the tool named `name`.
pub open spec fn tool_index(r: Seq<(Seq<char>, Seq<char>, JsonView)>, name: Seq<char>) -> Option<int> {
    tool_from(r, name, 0)
}

/// The registry once `name` is registered with `desc` and `schema`: it
/// replaces a tool of that name, or comes last.
pub open spec fn registered(r: Seq<(Seq<char>, Seq<char>, JsonView)>, name: Seq<char>, desc: Seq<char>, schema: JsonView) -> Seq<(Seq<char>, Seq<char>, JsonView)> {
    match tool_index(r, name) {
        Some(i) => r.update(i, (name, desc, schema)),
        None => r.push((name, desc, schema)),
    }
}

/// A success answer.
pub open spec fn success_view(id: Option<JsonView>, result: JsonView) -> ResponseView {
    ("2.0"@, id, Some(result), None)
}

/// An error answer.
pub open spec fn error_view(id: Option<JsonView>, code: i32, message: Seq<char>) -> ResponseView {
    ("2.0"@, id, None, Some((code, message)))
}

/// The result of `initialize`: the protocol version asked for, the tool
/// capability and the server's name and version.
pub open spec fn capabilities(version: Seq<char>) -> JsonView {
    JsonView::Object(seq![
        ("protocolVersion"@, jstr(version)),
        ("capabilities"@, JsonView::Object(seq![("tools"@, JsonView::Object(seq![]))])),
        ("serverInfo"@, JsonView::Object(seq![("name"@, jstr("simpler-notes-mcp"@)), ("version"@, jstr("0.1.0"@))])),
    ])
}

/// A tool as `tools/list` lists it.
pub open spec fn description_view(name: Seq<char>, desc: Seq<char>, schema: JsonView) -> JsonView {
    JsonView::Object(seq![("name"@, jstr(name)), ("description"@, jstr(desc)), ("input_schema"@, schema)])
}

/// The result of `tools/list`: every registered tool, in order.
pub open spec fn tool_list(r: Seq<(Seq<char>, Seq<char>, JsonView)>) -> JsonView {
    JsonView::Object(seq![("tools"@, JsonView::Array(Seq::new(r.len(), |i: int| description_view(r[i].0, r[i].1, r[i].2))))])
}

/// The result of a `tools/call`: one text item, and whether it reports an
/// error.
pub open spec fn call_result(text: Seq<char>, is_error: bool) -> JsonView {
    JsonView::Object(seq![
        ("content"@, JsonView::Array(seq![JsonView::Object(seq![("type"@, jstr("text"@)), ("text"@, jstr(text))])])),
        ("isError"@, JsonView::Bool(is_error)),
    ])
}

/// What the dispatcher does with a request, as plain values.
pub ghost enum HandledView {
    Answer(Option<ResponseView>),
    Run(JsonView, Seq<char>, Option<JsonView>, bool),
}

/// What the registry `r` makes of a request with id `id`, method `m` and
/// parameters `p`.
pub open spec fn handle(r: Seq<(Seq<char>, Seq<char>, JsonView)>, id: Option<JsonView>, m: Seq<char>, p: Option<JsonView>) -> HandledView {
    match id {
        None => HandledView::Answer(None),
        Some(i) => if m == "initialize"@ {
            let v = match p {
                Some(pv) => match text_of(field(pv, "protocolVersion"@)) {
                    Some(t) => t,
                    None => "unknown"@,
                },
                None => "unknown"@,
            };
            HandledView::Answer(Some(success_view(Some(i), capabilities(v))))
        } else if m == "tools/list"@ {
            HandledView::Answer(Some(success_view(Some(i), tool_list(r))))
        } else if m == "tools/call"@ {
            let name = match p {
                Some(pv) => text_of(field(pv, "name"@)),
                None => None,
            };
            let args = match p {
                Some(pv) => field(pv, "arguments"@),
                None => None,
            };
            match name {
                Some(n) => match tool_index(r, n) {
                    Some(_) => HandledView::Run(i, n, args, true),
                    None => HandledView::Answer(Some(success_view(Some(i), call_result("Tool not found: "@ + n, true)))),
                },
                None => HandledView::Answer(Some(error_view(Some(i), -32602i32, "Missing parameter: name"@))),
            }
        } else {
            match tool_index(r, m) {
                Some(_) => HandledView::Run(i, m, p, false),
                None => HandledView::Answer(Some(error_view(Some(i), -32601i32, "Method not found: "@ + m))),
            }
        },
    }
}

impl View for Handled {
    type V = HandledView;

    open spec fn view(&self) -> HandledView {
        match self {
            Handled::Answer(a) => HandledView::Answer(match a {
                Some(x) => Some(x@),
                None => None,
            }),
            Handled::Run(c) => HandledView::Run(c.id@, c.name@, opt_view(c.params), c.wrapped),
        }
    }
}

/// The answer to a tool call once the tool has given `outcome`: its
/// result (with the result's JSON text), or an error code and message.
pub open spec fn finished(
    id: JsonView,
    wrapped: bool,
    outcome: Result<JsonView, (i32, Seq<char>)>,
) -> ResponseView {
    match outcome {
        Ok(v) => if wrapped {
            success_view(Some(id), call_result(json_text_of(v), false))
        } else {
            success_view(Some(id), v)
        },
        Err((code, msg)) => if wrapped {
            success_view(Some(id), call_result(msg, true))
        } else {
            error_view(Some(id), code, msg)
        },
    }
}

/// The JSON form of an answer, as serde writes it: `jsonrpc`, then `id`,
/// `result` and `error` where present.
pub open spec fn response_json(r: ResponseView) -> JsonView {
    JsonView::Object(
        seq![("jsonrpc"@, jstr(r.0))]
            + (match r.1 { Some(i) => seq![("id"@, i)], None => seq![] })
            + (match r.2 { Some(x) => seq![("result"@, x)], None => seq![] })
            + (match r.3 {
                Some(e) => seq![("error"@, JsonView::Object(seq![("code"@, JsonView::Number(int_text(e.0 as int))), ("message"@, jstr(e.1))]))],
                None => seq![],
            }),
    )
}

/// The decimal text of an integer.
pub open spec fn int_text(n: int) -> Seq<char> {
    if n < 0 {
        seq!['-'] + crate::text::decimal((-n) as nat)
    } else {
        crate::text::decimal(n as nat)
    }
}

/// The JSON schema of a tool's parameters: each is a string with its
/// description, and the required ones are listed.
pub open spec fn schema_view(params: Seq<ParamDef>) -> JsonView {
    JsonView::Object(seq![
        ("type"@, jstr("object"@)),
        ("properties"@, JsonView::Object(Seq::new(params.len(), |i: int|
            (params[i].name@, JsonView::Object(seq![("type"@, jstr("string"@)), ("description"@, jstr(params[i].description@))]))))),
        ("required"@, JsonView::Array(required_names(params))),
    ])
}

/// The names of the required parameters, in order.
pub open spec fn required_names(params: Seq<ParamDef>) -> Seq<JsonView>
    decreases params.len(),
{
    if params.len() == 0 {
        seq![]
    } else if params.last().required {
        required_names(params.drop_last()).push(jstr(params.last().name@))
    } else {
        required_names(params.drop_last())
    }
}

// ---------------------------------------------------------------- code

/// A string value for `t`.
fn jtext(t: &str) -> (r: Json)
    ensures
        r@ == jstr(t@),
{
    Json::Str(t.to_owned())
}

/// An object of the members `m`.
fn jobject(m: Vec<(String, Json)>) -> (r: Json)
    ensures
        r@ == JsonView::Object(member_views(m@)),
{
    proof {
        lemma_object_view(m);
    }
    Json::Object(m)
}

/// An array of the elements `v`.
fn jarray(v: Vec<Json>) -> (r: Json)
    ensures
        r@ == JsonView::Array(element_views(v@)),
{
    proof {
        lemma_array_view(v);
    }
    Json::Array(v)
}

impl JsonRpcResponse {
    /// A success answer carrying `result`.
    pub fn success(id: Option<Json>, result: Json) -> (r: Self)
        ensures
            r@ == success_view(opt_view(id), result@),
    {
        JsonRpcResponse { jsonrpc: String::from_str("2.0"), id, result: Some(result), error: None }
    }

    /// An error answer with `code` and `message`.
    pub fn error(id: Option<Json>, code: i32, message: String) -> (r: Self)
        ensures
            r@ == error_view(opt_view(id), code, message@),
    {
        JsonRpcResponse {
            jsonrpc: String::from_str("2.0"),
            id,
            result: None,
            error: Some(JsonRpcError { code, message }),
        }
    }

    /// The answer to a message that could not be read.
    pub fn parse_error(id: Option<Json>, detail: &str) -> (r: Self)
        ensures
            r@ == error_view(opt_view(id), -32700i32, "Parse error: "@ + detail@),
    {
        let mut m = String::from_str("Parse error: ");
        push_str(&mut m, detail);
        Self::error(id, -32700, m)
    }

    /// The answer to an unknown method.
    pub fn method_not_found(id: Option<Json>, method: &str) -> (r: Self)
        ensures
            r@ == error_view(opt_view(id), -32601i32, "Method not found: "@ + method@),
    {
        let mut m = String::from_str("Method not found: ");
        push_str(&mut m, method);
        Self::error(id, -32601, m)
    }

    /// The answer to parameters that do not fit.
    pub fn invalid_params(id: Option<Json>, detail: &str) -> (r: Self)
        ensures
            r@ == error_view(opt_view(id), -32602i32, "Invalid params: "@ + detail@),
    {
        let mut m = String::from_str("Invalid params: ");
        push_str(&mut m, detail);
        Self::error(id, -32602, m)
    }

    /// The answer to a failure inside the server.
    pub fn internal_error(id: Option<Json>, detail: &str) -> (r: Self)
        ensures
            r@ == error_view(opt_view(id), -32000i32, "Internal error: "@ + detail@),
    {
        let mut m = String::from_str("Internal error: ");
        push_str(&mut m, detail);
        Self::error(id, -32000, m)
    }
}

impl ContentItem {
    /// The item as JSON: its type and text.
    pub fn to_json(&self) -> (r: Json)
        ensures
            r@ == JsonView::Object(seq![("type"@, jstr(self.content_type@)), ("text"@, jstr(self.text@))]),
    {
        let mut m: Vec<(String, Json)> = Vec::new();
        m.push((String::from_str("type"), jtext(self.content_type.as_str())));
        m.push((String::from_str("text"), jtext(self.text.as_str())));
        let r = jobject(m);
        assert(member_views(m@) =~= seq![("type"@, jstr(self.content_type@)), ("text"@, jstr(self.text@))]);
        r
    }
}

impl ToolDescription {
    /// The description as JSON: name, description and input schema.
    pub fn to_json(&self) -> (r: Json)
        ensures
            r@ == description_view(self.name@, self.description@, self.input_schema@),
    {
        let mut m: Vec<(String, Json)> = Vec::new();
        m.push((String::from_str("name"), jtext(self.name.as_str())));
        m.push((String::from_str("description"), jtext(self.description.as_str())));
        m.push((String::from_str("input_schema"), self.input_schema.duplicate()));
        let r = jobject(m);
        assert(member_views(m@) =~= seq![("name"@, jstr(self.name@)), ("description"@, jstr(self.description@)), ("input_schema"@, self.input_schema@)]);
        r
    }
}

/// Do `a` and `b` hold the same text?
fn same_text(a: &str, b: &str) -> (r: bool)
    ensures
        r == (a@ == b@),
{
    let ac = crate::text::chars_of(a);
    let bc = crate::text::chars_of(b);
    crate::tags::same_chars(&ac, &bc)
}

/// The text of the `i32` `n`.
fn int_string(n: i32) -> (r: String)
    ensures
        r@ == int_text(n as int),
{
    let mut t = String::new();
    if n < 0 {
        crate::text::push_char(&mut t, '-');
        let m: i64 = -(n as i64);
        crate::text::push_decimal(&mut t, m as u64);
    } else {
        crate::text::push_decimal(&mut t, n as u64);
    }
    t
}

impl JsonRpcResponse {
    /// The answer as JSON (see [`response_json`]).
    pub fn to_json(&self) -> (r: Json)
        ensures
            r@ == response_json(self@),
    {
        let mut m: Vec<(String, Json)> = Vec::new();
        m.push((String::from_str("jsonrpc"), jtext(self.jsonrpc.as_str())));
        let ghost base = member_views(m@);
        assert(base =~= seq![("jsonrpc"@, jstr(self.jsonrpc@))]);
        match &self.id {
            Some(i) => {
                m.push((String::from_str("id"), i.duplicate()));
            },
            None => {},
        }
        let ghost with_id = member_views(m@);
        assert(with_id =~= base + (match opt_view(self.id) { Some(i) => seq![("id"@, i)], None => seq![] }));
        match &self.result {
            Some(x) => {
                m.push((String::from_str("result"), x.duplicate()));
            },
            None => {},
        }
        let ghost with_result = member_views(m@);
        assert(with_result =~= with_id + (match opt_view(self.result) { Some(x) => seq![("result"@, x)], None => seq![] }));
        match &self.error {
            Some(e) => {
                let mut em: Vec<(String, Json)> = Vec::new();
                em.push((String::from_str("code"), Json::Number(int_string(e.code))));
                em.push((String::from_str("message"), jtext(e.message.as_str())));
                assert(member_views(em@) =~= seq![("code"@, JsonView::Number(int_text(e.code as int))), ("message"@, jstr(e.message@))]);
                m.push((String::from_str("error"), jobject(em)));
            },
            None => {},
        }
        let ghost all = member_views(m@);
        assert(all =~= with_result + (match self@.3 {
            Some(e) => seq![("error"@, JsonView::Object(seq![("code"@, JsonView::Number(int_text(e.0 as int))), ("message"@, jstr(e.1))]))],
            None => seq![],
        }));
        jobject(m)
    }
}

impl InputSchema {
    /// The parameters `params`.
    pub fn new(params: Vec<ParamDef>) -> (r: Self)
        ensures
            r.params == params,
    {
        InputSchema { params }
    }

    /// The JSON schema of the parameters (see [`schema_view`]).
    pub fn to_json_schema(&self) -> (r: Json)
        ensures
            r@ == schema_view(self.params@),
    {
        let ps = &self.params;
        let mut props: Vec<(String, Json)> = Vec::new();
        let mut required: Vec<Json> = Vec::new();
        let mut i: usize = 0;
        while i < ps.len()
            invariant
                i <= ps@.len(),
                props@.len() == i,
                forall|k: int| 0 <= k < i ==> #[trigger] props@[k].0@ == ps@[k].name@
                    && props@[k].1@ == JsonView::Object(seq![("type"@, jstr("string"@)), ("description"@, jstr(ps@[k].description@))]),
                element_views(required@) == required_names(ps@.take(i as int)),
            decreases ps@.len() - i,
        {
            let p = &ps[i];
            let mut pm: Vec<(String, Json)> = Vec::new();
            pm.push((String::from_str("type"), jtext("string")));
            pm.push((String::from_str("description"), jtext(p.description.as_str())));
            assert(member_views(pm@) =~= seq![("type"@, jstr("string"@)), ("description"@, jstr(p.description@))]);
            props.push((p.name.clone(), jobject(pm)));
            let ghost before = element_views(required@);
            assert(ps@.take(i + 1).drop_last() =~= ps@.take(i as int));
            assert(ps@.take(i + 1).last() == *p);
            if p.required {
                let x = jtext(p.name.as_str());
                let ghost xv = x@;
                required.push(x);
                assert(element_views(required@) =~= before.push(xv));
            }
            i = i + 1;
        }
        assert(ps@.take(ps@.len() as int) =~= ps@);
        let mut m: Vec<(String, Json)> = Vec::new();
        m.push((String::from_str("type"), jtext("object")));
        let ghost pv = member_views(props@);
        let ghost rv = element_views(required@);
        m.push((String::from_str("properties"), jobject(props)));
        m.push((String::from_str("required"), jarray(required)));
        assert(pv =~= Seq::new(ps@.len(), |k: int|
            (ps@[k].name@, JsonView::Object(seq![("type"@, jstr("string"@)), ("description"@, jstr(ps@[k].description@))]))));
        assert(member_views(m@) =~= seq![
            ("type"@, jstr("object"@)),
            ("properties"@, JsonView::Object(pv)),
            ("required"@, JsonView::Array(rv)),
        ]);
        jobject(m)
    }
}

impl Dispatcher {
    /// A registry with no tool.
    pub fn new() -> (r: Self)
        ensures
            registry(r.tools@) == Seq::<(Seq<char>, Seq<char>, JsonView)>::empty(),
            !r.initialized,
    {
        let r = Dispatcher { tools: Vec::new(), initialized: false };
        assert(registry(r.tools@) =~= Seq::<(Seq<char>, Seq<char>, JsonView)>::empty());
        r
    }

    /// Position of the tool named `name` (see [`tool_index`]).
    fn find(&self, name: &str) -> (r: Option<usize>)
        ensures
            match tool_index(registry(self.tools@), name@) {
                Some(i) => r == Some(i as usize) && 0 <= i < self.tools@.len(),
                None => r is None,
            },
    {
        let ghost rv = registry(self.tools@);
        let n = self.tools.len();
        let mut i: usize = 0;
        while i < self.tools.len()
            invariant
                i <= self.tools@.len(),
                n == self.tools@.len(),
                rv == registry(self.tools@),
                tool_index(rv, name@) == tool_from(rv, name@, i as int),
            decreases self.tools@.len() - i,
        {
            if same_text(self.tools[i].0.as_str(), name) {
                return Some(i);
            }
            i = i + 1;
        }
        None
    }

    /// Registers the tool `name` with `info`, in place of one so named.
    pub fn register(&mut self, name: &str, info: ToolInfo)
        ensures
            registry(final(self).tools@) == registered(registry(old(self).tools@), name@, info.description@, info.input_schema@),
            final(self).initialized == old(self).initialized,
    {
        let ghost before = registry(self.tools@);
        let ghost entry = (name@, info.description@, info.input_schema@);
        match self.find(name) {
            Some(i) => {
                self.tools.set(i, (name.to_owned(), info));
                assert(registry(self.tools@) =~= before.update(i as int, entry));
            },
            None => {
                self.tools.push((name.to_owned(), info));
                assert(registry(self.tools@) =~= before.push(entry));
            },
        }
    }

    /// Registers the tool `name`, described by `description`, taking the
    /// parameters `input` (its schema as [`InputSchema::to_json_schema`]
    /// writes it).
    pub fn register_generic(&mut self, name: &str, description: &str, input: &InputSchema)
        ensures
            registry(final(self).tools@) == registered(registry(old(self).tools@), name@, description@, schema_view(input.params@)),
            final(self).initialized == old(self).initialized,
    {
        let info = ToolInfo { description: description.to_owned(), input_schema: input.to_json_schema() };
        self.register(name, info);
    }

    /// The `tools/list` result.
    fn list(&self) -> (r: Json)
        ensures
            r@ == tool_list(registry(self.tools@)),
    {
        let ghost rv = registry(self.tools@);
        let mut items: Vec<Json> = Vec::new();
        let mut i: usize = 0;
        while i < self.tools.len()
            invariant
                i <= self.tools@.len(),
                rv == registry(self.tools@),
                items@.len() == i,
                forall|k: int| 0 <= k < i ==> #[trigger] items@[k]@ == description_view(rv[k].0, rv[k].1, rv[k].2),
            decreases self.tools@.len() - i,
        {
            let d = ToolDescription {
                name: self.tools[i].0.clone(),
                description: self.tools[i].1.description.clone(),
                input_schema: self.tools[i].1.input_schema.duplicate(),
            };
            items.push(d.to_json());
            i = i + 1;
        }
        let ghost iv = element_views(items@);
        assert(iv =~= Seq::new(rv.len(), |k: int| description_view(rv[k].0, rv[k].1, rv[k].2)));
        let arr = jarray(items);
        let mut m: Vec<(String, Json)> = Vec::new();
        m.push((String::from_str("tools"), arr));
        assert(member_views(m@) =~= seq![("tools"@, JsonView::Array(iv))]);
        jobject(m)
    }

    /// Handles `request` (see [`handle`]): a notification has no answer
    /// (`notifications/initialized` marks the session as started); a known
    /// request is answered or turns into a tool to run.
    pub fn handle_jsonrpc(&mut self, request: JsonRpcRequest) -> (r: Handled)
        ensures
            r@ == handle(registry(old(self).tools@), opt_view(request.id), request.method@, opt_view(request.params)),
            registry(final(self).tools@) == registry(old(self).tools@),
            final(self).initialized == (old(self).initialized || (request.id is None && request.method@ == "notifications/initialized"@)),
    {
        let JsonRpcRequest { id, method, params } = request;
        let id = match id {
            Some(i) => i,
            None => {
                if same_text(method.as_str(), "notifications/initialized") {
                    self.initialized = true;
                }
                return Handled::Answer(None);
            },
        };
        if same_text(method.as_str(), "initialize") {
            let version = match &params {
                Some(p) => match p.get("protocolVersion") {
                    Some(v) => match v.as_str() {
                        Some(t) => t.clone(),
                        None => String::from_str("unknown"),
                    },
                    None => String::from_str("unknown"),
                },
                None => String::from_str("unknown"),
            };
            let ghost ver = match opt_view(params) {
                Some(pv) => match text_of(field(pv, "protocolVersion"@)) {
                    Some(t) => t,
                    None => "unknown"@,
                },
                None => "unknown"@,
            };
            assert(version@ == ver);
            let none: Vec<(String, Json)> = Vec::new();
            assert(member_views(none@) =~= Seq::<(Seq<char>, JsonView)>::empty());
            let mut tools_m: Vec<(String, Json)> = Vec::new();
            tools_m.push((String::from_str("tools"), jobject(none)));
            assert(member_views(tools_m@) =~= seq![("tools"@, JsonView::Object(seq![]))]);
            let caps = jobject(tools_m);
            let mut info: Vec<(String, Json)> = Vec::new();
            info.push((String::from_str("name"), jtext("simpler-notes-mcp")));
            info.push((String::from_str("version"), jtext("0.1.0")));
            assert(member_views(info@) =~= seq![("name"@, jstr("simpler-notes-mcp"@)), ("version"@, jstr("0.1.0"@))]);
            let info_j = jobject(info);
            let vj = Json::Str(version);
            assert(vj@ == jstr(ver));
            let mut m: Vec<(String, Json)> = Vec::new();
            m.push((String::from_str("protocolVersion"), vj));
            m.push((String::from_str("capabilities"), caps));
            m.push((String::from_str("serverInfo"), info_j));
            assert(member_views(m@) =~= seq![
                ("protocolVersion"@, jstr(ver)),
                ("capabilities"@, JsonView::Object(seq![("tools"@, JsonView::Object(seq![]))])),
                ("serverInfo"@, JsonView::Object(seq![("name"@, jstr("simpler-notes-mcp"@)), ("version"@, jstr("0.1.0"@))])),
            ]);
            let result = jobject(m);
            assert(result@ == capabilities(ver));
            return Handled::Answer(Some(JsonRpcResponse::success(Some(id), result)));
        }
        if same_text(method.as_str(), "tools/list") {
            let result = self.list();
            return Handled::Answer(Some(JsonRpcResponse::success(Some(id), result)));
        }
        if same_text(method.as_str(), "tools/call") {
            let name = match &params {
                Some(p) => match p.get("name") {
                    Some(v) => match v.as_str() {
                        Some(t) => Some(t.clone()),
                        None => None,
                    },
                    None => None,
                },
                None => None,
            };
            let args = match &params {
                Some(p) => match p.get("arguments") {
                    Some(v) => Some(v.duplicate()),
                    None => None,
                },
                None => None,
            };
            match name {
                Some(n) => {
                    match self.find(n.as_str()) {
                        Some(_) => {
                            return Handled::Run(ToolCall { id, name: n, params: args, wrapped: true });
                        },
                        None => {
                            let mut text = String::from_str("Tool not found: ");
                            push_str(&mut text, n.as_str());
                            let result = call_result_json(text, true);
                            return Handled::Answer(Some(JsonRpcResponse::success(Some(id), result)));
                        },
                    }
                },
                None => {
                    return Handled::Answer(Some(JsonRpcResponse::error(Some(id), -32602, String::from_str("Missing parameter: name"))));
                },
            }
        }
        match self.find(method.as_str()) {
            Some(_) => Handled::Run(ToolCall { id, name: method, params, wrapped: false }),
            None => {
                let mut text = String::from_str("Method not found: ");
                push_str(&mut text, method.as_str());
                Handled::Answer(Some(JsonRpcResponse::error(Some(id), -32601, text)))
            },
        }
    }

    /// The answer to `call` once its tool has given `outcome` (see
    /// [`finished`]); a result of a `tools/call` is carried as its JSON text.
    pub fn finish_call(call: ToolCall, outcome: Result<Json, (i32, String)>) -> (r: JsonRpcResponse)
        ensures
            r@ == finished(call.id@, call.wrapped, match outcome {
                Ok(v) => Ok(v@),
                Err((c, m)) => Err((c, m@)),
            }),
    {
        match outcome {
            Ok(v) => if call.wrapped {
                let text = json_text(&v);
                JsonRpcResponse::success(Some(call.id), call_result_json(text, false))
            } else {
                JsonRpcResponse::success(Some(call.id), v)
            },
            Err((code, msg)) => if call.wrapped {
                JsonRpcResponse::success(Some(call.id), call_result_json(msg, true))
            } else {
                JsonRpcResponse::error(Some(call.id), code, msg)
            },
        }
    }
}

/// The result of a `tools/call` (see [`call_result`]).
fn call_result_json(text: String, is_error: bool) -> (r: Json)
    ensures
        r@ == call_result(text@, is_error),
{
    let item = ContentItem { content_type: String::from_str("text"), text };
    let mut content: Vec<Json> = Vec::new();
    content.push(item.to_json());
    assert(element_views(content@) =~= seq![JsonView::Object(seq![("type"@, jstr("text"@)), ("text"@, jstr(item.text@))])]);
    let mut m: Vec<(String, Json)> = Vec::new();
    m.push((String::from_str("content"), jarray(content)));
    m.push((String::from_str("isError"), Json::Bool(is_error)));
    assert(member_views(m@) =~= seq![
        ("content"@, JsonView::Array(seq![JsonView::Object(seq![("type"@, jstr("text"@)), ("text"@, jstr(item.text@))])])),
        ("isError"@, JsonView::Bool(is_error)),
    ]);
    jobject(m)
}

proof fn lemma_tool_from_range(r: Seq<(Seq<char>, Seq<char>, JsonView)>, name: Seq<char>, i: int)
    requires
        0 <= i,
    ensures
        tool_from(r, name, i) matches Some(k) ==> i <= k < r.len() && r[k].0 == name
            && forall|j: int| i <= j < k ==> r[j].0 != name,
        tool_from(r, name, i) is None ==> forall|k: int| i <= k < r.len() ==> r[k].0 != name,
    decreases r.len() - i,
{
    if i < r.len() && r[i].0 != name {
        lemma_tool_from_range(r, name, i + 1);
    }
}

proof fn lemma_tool_from_same(a: Seq<(Seq<char>, Seq<char>, JsonView)>, b: Seq<(Seq<char>, Seq<char>, JsonView)>, name: Seq<char>, i: int)
    requires
        0 <= i,
        a.len() == b.len(),
        forall|k: int| i <= k < a.len() ==> (a[k].0 == name) == (b[k].0 == name),
    ensures
        tool_from(a, name, i) == tool_from(b, name, i),
    decreases a.len() - i,
{
    if i < a.len() && a[i].0 != name {
        lemma_tool_from_same(a, b, name, i + 1);
    }
}

proof fn lemma_tool_from_push(r: Seq<(Seq<char>, Seq<char>, JsonView)>, t: (Seq<char>, Seq<char>, JsonView), name: Seq<char>, i: int)
    requires
        0 <= i <= r.len(),
        tool_from(r, name, i) is None,
        t.0 == name,
    ensures
        tool_from(r.push(t), name, i) == Some(r.len() as int),
    decreases r.len() - i,
{
    if i < r.len() {
        assert(r.push(t)[i] == r[i]);
        lemma_tool_from_push(r, t, name, i + 1);
    }
}

/// A registered tool is listed under its name with what it was registered
/// with.
pub proof fn law_registered_found(r: Seq<(Seq<char>, Seq<char>, JsonView)>, name: Seq<char>, desc: Seq<char>, schema: JsonView)
    ensures
        tool_index(registered(r, name, desc, schema), name) matches Some(i)
            && registered(r, name, desc, schema)[i] == (name, desc, schema),
{
    lemma_tool_from_range(r, name, 0);
    match tool_index(r, name) {
        Some(i) => {
            let u = r.update(i, (name, desc, schema));
            lemma_tool_from_same(r, u, name, 0);
        },
        None => {
            lemma_tool_from_push(r, (name, desc, schema), name, 0);
        },
    }
}

/// Registering a name again replaces what it was registered with: the
/// registry is as if only the second registration had been made.
pub proof fn law_register_overwrites(
    r: Seq<(Seq<char>, Seq<char>, JsonView)>,
    name: Seq<char>,
    d1: Seq<char>,
    s1: JsonView,
    d2: Seq<char>,
    s2: JsonView,
)
    ensures
        registered(registered(r, name, d1, s1), name, d2, s2) == registered(r, name, d2, s2),
{
    lemma_tool_from_range(r, name, 0);
    let r1 = registered(r, name, d1, s1);
    match tool_index(r, name) {
        Some(i) => {
            lemma_tool_from_same(r, r1, name, 0);
            assert(r1.update(i, (name, d2, s2)) =~= r.update(i, (name, d2, s2)));
        },
        None => {
            lemma_tool_from_push(r, (name, d1, s1), name, 0);
            assert(r1.update(r.len() as int, (name, d2, s2)) =~= r.push((name, d2, s2)));
        },
    }
}

} // verus!
