//! Connection-contributed tools: reading the tool table a connection
//! reports, converting tool execution replies, validating parameters
//! against a tool's schema, and registering discovered tools.

use vstd::prelude::*;

use crate::error::NeovimError;
use crate::json::{jm, jm_items, jm_members, JsonModel, JsonValue};
use crate::router::{DynamicTool, HybridToolRouter};
use vstd::string::StrSliceExecFns;

verus! {

broadcast use vstd::std_specs::vec::axiom_vec_index_decreases, vstd::seq::axiom_seq_index_decreases;

/// The description of one discovered tool.
pub struct LuaToolConfig {
    pub name: String,
    pub description: String,
    pub input_schema: JsonValue,
}

/// One content block of a tool execution reply.
pub struct LuaMcpContent {
    pub content_type: String,
    pub text: String,
}

/// The error detail of a failed tool execution.
pub struct LuaErrorInfo {
    pub code: String,
    pub message: String,
    pub data: Option<JsonValue>,
}

/// The metadata block of a tool execution reply.
pub struct LuaMcpMeta {
    pub error: Option<LuaErrorInfo>,
}

/// A tool execution reply: content blocks, an error flag, and optional
/// metadata naming the failure.
pub struct LuaMcpResponse {
    pub content: Vec<LuaMcpContent>,
    pub is_error: bool,
    pub meta: Option<LuaMcpMeta>,
}

/// Looks a key up in a JSON object, first match wins.
pub open spec fn obj_lookup(members: Seq<(Seq<char>, JsonModel)>, key: Seq<char>) -> Option<
    JsonModel,
>
    decreases members.len(),
{
    if members.len() == 0 {
        None
    } else if members[0].0 == key {
        Some(members[0].1)
    } else {
        obj_lookup(members.drop_first(), key)
    }
}

/// Reads one content block: an object with string `type` and `text`.
pub open spec fn content_of(j: JsonModel) -> Option<(Seq<char>, Seq<char>)> {
    match j {
        JsonModel::Object(members) => match (
            obj_lookup(members, "type"@),
            obj_lookup(members, "text"@),
        ) {
            (Some(JsonModel::Str(ctype)), Some(JsonModel::Str(text))) => Some((ctype, text)),
            _ => None,
        },
        _ => None,
    }
}

/// Reads the first `n` content blocks.
pub open spec fn contents_of(items: Seq<JsonModel>, n: int) -> Option<
    Seq<(Seq<char>, Seq<char>)>,
>
    decreases n,
{
    if n <= 0 || n > items.len() {
        Some(Seq::empty())
    } else {
        match (contents_of(items, n - 1), content_of(items[n - 1])) {
            (Some(cs), Some(c)) => Some(cs.push(c)),
            _ => None,
        }
    }
}

/// The model of a reply: its content blocks, the error flag, and the
/// error message carried in metadata, if any.
pub struct ResponseModel {
    pub content: Seq<(Seq<char>, Seq<char>)>,
    pub is_error: bool,
    pub error_message: Option<Seq<char>>,
}

/// Reads a tool execution reply.  `content` (an array of content
/// blocks) and `isError` (a boolean) are required; `_meta.error.message`
/// is carried along when present.
pub open spec fn response_of(j: JsonModel) -> Option<ResponseModel> {
    match j {
        JsonModel::Object(members) => match (
            obj_lookup(members, "content"@),
            obj_lookup(members, "isError"@),
        ) {
            (Some(JsonModel::Array(items)), Some(JsonModel::Bool(is_error))) => match
                contents_of(items, items.len() as int) {
                Some(cs) => Some(ResponseModel {
                    content: cs,
                    is_error,
                    error_message: meta_error_message(obj_lookup(members, "_meta"@)),
                }),
                None => None,
            },
            _ => None,
        },
        _ => None,
    }
}

/// The error message inside an optional `_meta` block, if any.
pub open spec fn meta_error_message(meta: Option<JsonModel>) -> Option<Seq<char>> {
    match meta {
        Some(JsonModel::Object(meta_members)) => match obj_lookup(meta_members, "error"@) {
            Some(JsonModel::Object(err_members)) => match obj_lookup(
                err_members,
                "message"@,
            ) {
                Some(JsonModel::Str(message)) => Some(message),
                _ => None,
            },
            _ => None,
        },
        _ => None,
    }
}

/// The index of the first member with this key, if any.
fn obj_find(members: &Vec<(String, JsonValue)>, key: &str) -> (r: Option<usize>)
    ensures
        match r {
            Some(i) => i < members.len() && obj_lookup(
                jm_members(*members, members.len() as int),
                key@,
            ) == Some(jm(members@[i as int].1)),
            None => obj_lookup(jm_members(*members, members.len() as int), key@) is None,
        },
{
    let owned: String = key.to_owned();
    let ghost models = jm_members(*members, members.len() as int);
    proof {
        crate::json::lemma_jm_members(*members, members.len() as int);
        assert(models.skip(0) =~= models);
    }
    let n = members.len();
    let mut i: usize = 0;
    while i < n
        invariant
            n == members.len(),
            i <= n,
            owned@ == key@,
            models == jm_members(*members, members.len() as int),
            models.len() == n,
            forall|j: int| 0 <= j < n ==> #[trigger] models[j]
                == (members@[j].0@, jm(members@[j].1)),
            obj_lookup(models, key@) == obj_lookup(models.skip(i as int), key@),
        decreases n - i,
    {
        proof {
            assert(models.skip(i as int)[0] == models[i as int]);
            assert(models.skip(i as int).drop_first() =~= models.skip(i + 1));
        }
        if members[i].0.eq(&owned) {
            return Some(i);
        }
        i = i + 1;
    }
    proof {
        assert(models.skip(n as int).len() == 0);
    }
    None
}

/// Reads a tool execution reply from a JSON value.  Fails with `Api`
/// exactly when the reply does not have the expected shape.
pub fn parse_lua_response(j: &JsonValue) -> (r: Result<LuaMcpResponse, NeovimError>)
    ensures
        (r matches Ok(resp) ==> response_of(jm(*j)) matches Some(m) && {
            &&& m.content == Seq::new(
                resp.content@.len(),
                |i: int| (resp.content@[i].content_type@, resp.content@[i].text@),
            )
            &&& m.is_error == resp.is_error
            &&& (m.error_message matches Some(msg) ==> (resp.meta matches Some(meta)
                && meta.error matches Some(e) && e.message@ == msg))
            &&& (m.error_message is None ==> (resp.meta matches Some(meta)
                ==> meta.error is None))
        }),
        (r matches Err(e) ==> response_of(jm(*j)) is None && e is Api),
{
    let members = match j {
        JsonValue::Object(members) => members,
        _ => {
            return Err(api_text("reply is not an object"));
        },
    };
    proof {
        crate::json::lemma_jm_members(*members, members.len() as int);
    }
    let items = match obj_find(members, "content") {
        Some(i) => match &members[i].1 {
            JsonValue::Array(items) => items,
            _ => {
                return Err(api_text("reply content is not an array"));
            },
        },
        None => {
            return Err(api_text("reply has no content"));
        },
    };
    let is_error = match obj_find(members, "isError") {
        Some(i) => match &members[i].1 {
            JsonValue::Bool(b) => *b,
            _ => {
                return Err(api_text("reply error flag is not a boolean"));
            },
        },
        None => {
            return Err(api_text("reply has no error flag"));
        },
    };
    proof {
        crate::json::lemma_jm_items(*items, items.len() as int);
    }
    let content = match parse_contents(items, items.len()) {
        Ok(cs) => cs,
        Err(e) => {
            return Err(e);
        },
    };
    let meta = match obj_find(members, "_meta") {
        None => None,
        Some(i) => match parse_meta(&members[i].1) {
            Some(meta) => Some(meta),
            None => Some(LuaMcpMeta { error: None }),
        },
    };
    proof {
        assert(Seq::new(
            content@.len(),
            |i: int| (content@[i].content_type@, content@[i].text@),
        ) =~= Seq::new(
            content@.len(),
            |i: int| (content@[i].content_type@, content@[i].text@),
        ));
    }
    Ok(LuaMcpResponse { content, is_error, meta })
}

/// Reads the first `n` content blocks of a reply.
fn parse_contents(items: &Vec<JsonValue>, n: usize) -> (r: Result<
    Vec<LuaMcpContent>,
    NeovimError,
>)
    requires
        n <= items.len(),
    ensures
        (r matches Ok(cs) ==> {
            let models = jm_items(*items, items.len() as int);
            contents_of(models, n as int) == Some(Seq::new(
                cs@.len(),
                |i: int| (cs@[i].content_type@, cs@[i].text@),
            )) && cs@.len() == n
        }),
        (r matches Err(e) ==> {
            let models = jm_items(*items, items.len() as int);
            contents_of(models, n as int) is None && e is Api
        }),
    decreases n,
{
    proof {
        crate::json::lemma_jm_items(*items, items.len() as int);
    }
    if n == 0 {
        let cs: Vec<LuaMcpContent> = Vec::new();
        proof {
            assert(Seq::new(cs@.len(), |i: int| (cs@[i].content_type@, cs@[i].text@))
                =~= Seq::<(Seq<char>, Seq<char>)>::empty());
        }
        Ok(cs)
    } else {
        let mut cs = match parse_contents(items, n - 1) {
            Ok(cs) => cs,
            Err(e) => {
                return Err(e);
            },
        };
        let c = match parse_content(&items[n - 1]) {
            Ok(c) => c,
            Err(e) => {
                return Err(e);
            },
        };
        let ghost c_snap = c;
        let ghost cs_snap = cs;
        cs.push(c);
        proof {
            assert(Seq::new(cs@.len(), |i: int| (cs@[i].content_type@, cs@[i].text@))
                =~= Seq::new(
                cs_snap@.len(),
                |i: int| (cs_snap@[i].content_type@, cs_snap@[i].text@),
            ).push((c_snap.content_type@, c_snap.text@)));
        }
        Ok(cs)
    }
}

/// Reads one content block.
fn parse_content(j: &JsonValue) -> (r: Result<LuaMcpContent, NeovimError>)
    ensures
        (r matches Ok(c) ==> content_of(jm(*j)) == Some((c.content_type@, c.text@))),
        (r matches Err(e) ==> content_of(jm(*j)) is None && e is Api),
{
    let members = match j {
        JsonValue::Object(members) => members,
        _ => {
            return Err(api_text("content block is not an object"));
        },
    };
    let content_type = match obj_find(members, "type") {
        Some(i) => match &members[i].1 {
            JsonValue::Str(s) => s.clone(),
            _ => {
                return Err(api_text("content type is not a string"));
            },
        },
        None => {
            return Err(api_text("content block has no type"));
        },
    };
    let text = match obj_find(members, "text") {
        Some(i) => match &members[i].1 {
            JsonValue::Str(s) => s.clone(),
            _ => {
                return Err(api_text("content text is not a string"));
            },
        },
        None => {
            return Err(api_text("content block has no text"));
        },
    };
    Ok(LuaMcpContent { content_type, text })
}

/// Reads a `_meta` block, if it is well-formed.
fn parse_meta(j: &JsonValue) -> (r: Option<LuaMcpMeta>)
    ensures
        (r matches Some(meta) ==> (match (meta_error_message(Some(jm(*j))), meta.error) {
            (Some(msg), Some(e)) => e.message@ == msg,
            (None, None) => true,
            _ => false,
        })),
        (r is None ==> meta_error_message(Some(jm(*j))) is None),
{
    let members = match j {
        JsonValue::Object(members) => members,
        _ => {
            return None;
        },
    };
    let err_members = match obj_find(members, "error") {
        None => {
            return Some(LuaMcpMeta { error: None });
        },
        Some(i) => match &members[i].1 {
            JsonValue::Object(err_members) => err_members,
            _ => {
                return Some(LuaMcpMeta { error: None });
            },
        },
    };
    let message = match obj_find(err_members, "message") {
        Some(i) => match &err_members[i].1 {
            JsonValue::Str(s) => s.clone(),
            _ => {
                return Some(LuaMcpMeta { error: None });
            },
        },
        None => {
            return Some(LuaMcpMeta { error: None });
        },
    };
    let code = match obj_find(err_members, "code") {
        Some(i) => match &err_members[i].1 {
            JsonValue::Str(s) => s.clone(),
            _ => String::new(),
        },
        None => String::new(),
    };
    Some(LuaMcpMeta { error: Some(LuaErrorInfo { code, message, data: None }) })
}

/// Converts a tool execution reply into its content texts.  A reply
/// flagged as an error fails with `Api`, carrying the remote message
/// when the metadata names one.
pub fn convert_lua_response_to_mcp(j: &JsonValue) -> (r: Result<Vec<String>, NeovimError>)
    ensures
        (r matches Ok(texts) ==> response_of(jm(*j)) matches Some(m) && !m.is_error
            && texts@.len() == m.content.len()
            && (forall|i: int| 0 <= i < texts@.len()
                ==> (#[trigger] texts@[i])@ == m.content[i].1)),
        (r matches Err(e) ==> e is Api && (match response_of(jm(*j)) {
            Some(m) => m.is_error,
            None => true,
        })),
        (response_of(jm(*j)) matches Some(m) ==> (m.is_error ==> err_carries_message(
            r,
            m.error_message,
        ))),
{
    proof {
        reveal_strlit("Lua tool execution failed");
    }
    let resp = match parse_lua_response(j) {
        Ok(resp) => resp,
        Err(e) => {
            return Err(e);
        },
    };
    if resp.is_error {
        let msg = match resp.meta {
            Some(meta) => match meta.error {
                Some(e) => e.message,
                None => String::from_str("Lua tool execution failed"),
            },
            None => String::from_str("Lua tool execution failed"),
        };
        return Err(NeovimError::Api(msg));
    }
    let n = resp.content.len();
    let mut texts: Vec<String> = Vec::new();
    let mut i: usize = 0;
    while i < n
        invariant
            n == resp.content@.len(),
            i <= n,
            texts@.len() == i,
            forall|j2: int| 0 <= j2 < i ==> (#[trigger] texts@[j2])@
                == resp.content@[j2].text@,
        decreases n - i,
    {
        texts.push(resp.content[i].text.clone());
        i = i + 1;
    }
    Ok(texts)
}

/// A failed tool reply surfaces as `Api` carrying the remote message,
/// or the fixed note when the metadata names none.
pub open spec fn err_carries_message(
    r: Result<Vec<String>, NeovimError>,
    msg: Option<Seq<char>>,
) -> bool {
    r matches Err(NeovimError::Api(t)) && (msg matches Some(ms) ==> t@ == ms) && (msg is None
        ==> t@ == "Lua tool execution failed"@)
}

/// Reads one tool description: an object with string `name` and
/// `description` and an arbitrary `input_schema`.
pub open spec fn config_of(j: JsonModel) -> Option<(Seq<char>, Seq<char>, JsonModel)> {
    match j {
        JsonModel::Object(members) => match (
            obj_lookup(members, "name"@),
            obj_lookup(members, "description"@),
            obj_lookup(members, "input_schema"@),
        ) {
            (
                Some(JsonModel::Str(name)),
                Some(JsonModel::Str(description)),
                Some(schema),
            ) => Some((name, description, schema)),
            _ => None,
        },
        _ => None,
    }
}

/// Reads the first `n` members of a discovered tool table.
pub open spec fn configs_of(members: Seq<(Seq<char>, JsonModel)>, n: int) -> Option<
    Seq<(Seq<char>, (Seq<char>, Seq<char>, JsonModel))>,
>
    decreases n,
{
    if n <= 0 || n > members.len() {
        Some(Seq::empty())
    } else {
        match (configs_of(members, n - 1), config_of(members[n - 1].1)) {
            (Some(cs), Some(c)) => Some(cs.push((members[n - 1].0, c))),
            _ => None,
        }
    }
}

/// Reads the tool table a connection reports: an object mapping tool
/// names to tool descriptions.  Fails with `Api` exactly when the table
/// does not have that shape.
pub fn discover_lua_tools(j: &JsonValue) -> (r: Result<
    Vec<(String, LuaToolConfig)>,
    NeovimError,
>)
    ensures
        (r matches Ok(tools) ==> jm(*j) matches JsonModel::Object(members)
            && configs_of(members, members.len() as int) == Some(Seq::new(
            tools@.len(),
            |i: int| (
                tools@[i].0@,
                (
                    tools@[i].1.name@,
                    tools@[i].1.description@,
                    jm(tools@[i].1.input_schema),
                ),
            ),
        ))),
        (r matches Err(e) ==> e is Api && (match jm(*j) {
            JsonModel::Object(members) => configs_of(members, members.len() as int) is None,
            _ => true,
        })),
{
    let members = match j {
        JsonValue::Object(members) => members,
        _ => {
            return Err(api_text("tool table is not an object"));
        },
    };
    proof {
        crate::json::lemma_jm_members(*members, members.len() as int);
    }
    parse_config_list(members, members.len())
}

/// Reads the first `n` members of the tool table.
fn parse_config_list(members: &Vec<(String, JsonValue)>, n: usize) -> (r: Result<
    Vec<(String, LuaToolConfig)>,
    NeovimError,
>)
    requires
        n <= members.len(),
    ensures
        (r matches Ok(tools) ==> {
            let models = jm_members(*members, members.len() as int);
            configs_of(models, n as int) == Some(Seq::new(
                tools@.len(),
                |i: int| (
                    tools@[i].0@,
                    (
                        tools@[i].1.name@,
                        tools@[i].1.description@,
                        jm(tools@[i].1.input_schema),
                    ),
                ),
            )) && tools@.len() == n
        }),
        (r matches Err(e) ==> {
            let models = jm_members(*members, members.len() as int);
            configs_of(models, n as int) is None && e is Api
        }),
    decreases n,
{
    proof {
        crate::json::lemma_jm_members(*members, members.len() as int);
    }
    if n == 0 {
        let tools: Vec<(String, LuaToolConfig)> = Vec::new();
        proof {
            assert(Seq::new(
                tools@.len(),
                |i: int| (
                    tools@[i].0@,
                    (
                        tools@[i].1.name@,
                        tools@[i].1.description@,
                        jm(tools@[i].1.input_schema),
                    ),
                ),
            ) =~= Seq::<(Seq<char>, (Seq<char>, Seq<char>, JsonModel))>::empty());
        }
        Ok(tools)
    } else {
        let mut tools = match parse_config_list(members, n - 1) {
            Ok(tools) => tools,
            Err(e) => {
                return Err(e);
            },
        };
        let key = members[n - 1].0.clone();
        let config = match parse_config(&members[n - 1].1) {
            Ok(config) => config,
            Err(e) => {
                return Err(e);
            },
        };
        let ghost key_snap = key;
        let ghost config_snap = config;
        let ghost tools_snap = tools;
        tools.push((key, config));
        proof {
            assert(Seq::new(
                tools@.len(),
                |i: int| (
                    tools@[i].0@,
                    (
                        tools@[i].1.name@,
                        tools@[i].1.description@,
                        jm(tools@[i].1.input_schema),
                    ),
                ),
            ) =~= Seq::new(
                tools_snap@.len(),
                |i: int| (
                    tools_snap@[i].0@,
                    (
                        tools_snap@[i].1.name@,
                        tools_snap@[i].1.description@,
                        jm(tools_snap@[i].1.input_schema),
                    ),
                ),
            ).push((
                key_snap@,
                (config_snap.name@, config_snap.description@, jm(config_snap.input_schema)),
            )));
        }
        Ok(tools)
    }
}

/// Reads one tool description.
fn parse_config(j: &JsonValue) -> (r: Result<LuaToolConfig, NeovimError>)
    ensures
        (r matches Ok(c) ==> config_of(jm(*j)) == Some((
            c.name@,
            c.description@,
            jm(c.input_schema),
        ))),
        (r matches Err(e) ==> config_of(jm(*j)) is None && e is Api),
{
    let members = match j {
        JsonValue::Object(members) => members,
        _ => {
            return Err(api_text("tool description is not an object"));
        },
    };
    let name = match obj_find(members, "name") {
        Some(i) => match &members[i].1 {
            JsonValue::Str(s) => s.clone(),
            _ => {
                return Err(api_text("tool name is not a string"));
            },
        },
        None => {
            return Err(api_text("tool description has no name"));
        },
    };
    let description = match obj_find(members, "description") {
        Some(i) => match &members[i].1 {
            JsonValue::Str(s) => s.clone(),
            _ => {
                return Err(api_text("tool description text is not a string"));
            },
        },
        None => {
            return Err(api_text("tool description has no description"));
        },
    };
    let input_schema = match obj_find(members, "input_schema") {
        Some(i) => crate::json::clone_json(&members[i].1),
        None => {
            return Err(api_text("tool description has no schema"));
        },
    };
    Ok(LuaToolConfig { name, description, input_schema })
}

/// Registers each discovered tool for the connection.  Stops at the
/// first name that collides with a static tool, with `NameConflict`.
pub fn discover_and_register_lua_tools(
    router: &mut HybridToolRouter,
    connection_id: &str,
    tools: Vec<(String, LuaToolConfig)>,
) -> (r: Result<(), NeovimError>)
    requires
        old(router).wf(),
    ensures
        final(router).wf(),
        final(router).static_view() == old(router).static_view(),
        (r matches Err(e) ==> e is NameConflict && (exists|i: int| 0 <= i < tools@.len()
            && old(router).static_view().has_name((#[trigger] tools@[i]).1.name@))),
        (forall|i: int| 0 <= i < tools@.len()
            ==> !old(router).static_view().has_name((#[trigger] tools@[i]).1.name@))
            ==> r is Ok,
        (r matches Ok(_) ==> forall|i: int| 0 <= i < tools@.len()
            ==> final(router).dyn_tool((#[trigger] tools@[i]).1.name@, connection_id@)
                is Some),
        (r matches Ok(_) ==> forall|i: int| 0 <= i < tools@.len() && (forall|j: int|
            i < j < tools@.len() ==> (#[trigger] tools@[j]).1.name@ != tools@[i].1.name@)
            ==> #[trigger] final(router).dyn_tool(tools@[i].1.name@, connection_id@)
                == Some(config_model(tools@[i].1))),
{
    let n = tools.len();
    let mut k: usize = 0;
    let mut rest = tools;
    while k < n
        invariant
            router.wf(),
            router.static_view() == old(router).static_view(),
            rest == tools,
            n == rest@.len(),
            k <= n,
            forall|i: int| 0 <= i < k ==> router.dyn_tool(
                (#[trigger] rest@[i]).1.name@,
                connection_id@,
            ) is Some,
            forall|i: int| 0 <= i < k && (forall|j: int| i < j < k
                ==> (#[trigger] rest@[j]).1.name@ != rest@[i].1.name@)
                ==> #[trigger] router.dyn_tool(rest@[i].1.name@, connection_id@)
                    == Some(config_model(rest@[i].1)),
        decreases n - k,
    {
        let config = &rest[k].1;
        let tool = DynamicTool {
            name: config.name.clone(),
            description: config.description.clone(),
            input_schema: crate::json::clone_json(&config.input_schema),
        };
        let ghost tool_snap = tool;
        let ghost before = *router;
        match router.register_dynamic_tool(connection_id, tool) {
            Ok(_) => {},
            Err(e) => {
                proof {
                    assert(old(router).static_view().has_name(rest@[k as int].1.name@));
                }
                return Err(e);
            },
        }
        proof {
            assert(crate::router::tm(tool_snap) == config_model(rest@[k as int].1));
            assert forall|i: int| 0 <= i < k + 1 implies router.dyn_tool(
                (#[trigger] rest@[i]).1.name@,
                connection_id@,
            ) is Some by {
                if i < k {
                    if rest@[i].1.name@ != rest@[k as int].1.name@ {
                        assert(router.dyn_tool(rest@[i].1.name@, connection_id@)
                            == before.dyn_tool(rest@[i].1.name@, connection_id@));
                    }
                }
            }
            assert forall|i: int| 0 <= i < k + 1 && (forall|j: int| i < j < k + 1
                ==> (#[trigger] rest@[j]).1.name@ != rest@[i].1.name@)
                implies #[trigger] router.dyn_tool(rest@[i].1.name@, connection_id@)
                    == Some(config_model(rest@[i].1)) by {
                if i < k {
                    assert(rest@[k as int].1.name@ != rest@[i].1.name@);
                    assert(router.dyn_tool(rest@[i].1.name@, connection_id@)
                        == before.dyn_tool(rest@[i].1.name@, connection_id@));
                }
            }
        }
        k = k + 1;
    }
    Ok(())
}

/// The tool model a discovered description registers.
pub open spec fn config_model(config: LuaToolConfig) -> crate::router::DynamicToolModel {
    crate::router::DynamicToolModel {
        name: config.name@,
        description: config.description@,
        input_schema: jm(config.input_schema),
    }
}


/// Frames the request that executes a discovered tool on its
/// connection: the tool name and its serialized arguments are embedded
/// in the remote code.  The reply is converted with
/// `convert_lua_response_to_mcp` once it arrives.
pub fn execute_lua_tool(
    server: &mut crate::server::NeovimMcpServer,
    connection_id: &String,
    tool_name: &str,
    args_json: &str,
) -> (r: Result<(u32, Vec<u8>), NeovimError>)
    requires
        old(server).wf(),
    ensures
        final(server).wf(),
        final(server).router() == old(server).router(),
        !old(server).registry().contains_id(connection_id@) ==> (r matches Err(
            NeovimError::ConnectionNotFound(_),
        )) && *final(server) == *old(server),
        old(server).registry().contains_id(connection_id@) ==> {
            &&& final(server).registry().contains_id(connection_id@)
            &&& (forall|other: Seq<char>| other != connection_id@
                ==> #[trigger] final(server).registry().client_of(other)
                    == old(server).registry().client_of(other))
            &&& (old(server).registry().client_of(connection_id@) matches Some(c)
                ==> (vstd::utf8::encode_utf8(
                    execute_tool_code_chars(tool_name@, args_json@),
                ).len() <= u32::MAX
                && c.is_connected() && !c.rpc_state().is_closed()
                && c.rpc_state().next() < u32::MAX ==> (r matches Ok(p) && {
                let (msgid, bytes) = p;
                &&& msgid as int == c.rpc_state().next()
                &&& (final(server).registry().client_of(connection_id@) matches Some(c1)
                    && c1.rpc_state().pending_set()
                        == c.rpc_state().pending_set().insert(msgid as int))
                &&& bytes@ == crate::codec::enc(crate::rpc::frame_model(
                    crate::client::lua_request_model(
                        msgid as int,
                        vstd::utf8::encode_utf8(
                            execute_tool_code_chars(tool_name@, args_json@),
                        ),
                        Seq::empty(),
                    ),
                ))
            })))
        },
{
    let code = build_execute_tool_code(tool_name, args_json);
    proof {
        reveal_strlit("return require('nvim-mcp').execute_tool('");
        assert(code@.len() > 0);
    }
    server.exec_lua(connection_id, code.as_str())
}

/// What `jsonschema` decides for a schema and an instance, both given as
/// JSON text: whether the instance validates against the schema.  Both
/// texts must parse and the schema must compile, else the verdict is
/// negative.  With reference resolution compiled out (the crate is
/// built without its default features, so a schema with an external
/// `$ref` simply fails to compile), the verdict depends on the two
/// texts alone.
pub uninterp spec fn schema_accepts(schema: Seq<char>, instance: Seq<char>) -> bool;

/// Relies on `jsonschema::validator_for` and `Validator::is_valid`:
/// parses both texts with `serde_json`, compiles the schema, and
/// validates the instance; any failure along the way is a negative
/// verdict.
#[verifier::external_body]
fn jsonschema_is_valid(schema: &str, instance: &str) -> (r: bool)
    ensures
        r == schema_accepts(schema@, instance@),
{
    let Ok(schema_value) = serde_json::from_str::<serde_json::Value>(schema) else {
        return false;
    };
    let Ok(instance_value) = serde_json::from_str::<serde_json::Value>(instance) else {
        return false;
    };
    match jsonschema::validator_for(&schema_value) {
        Ok(validator) => validator.is_valid(&instance_value),
        Err(_) => false,
    }
}

/// Validates tool parameters against the tool's schema, both as JSON
/// text.
pub struct LuaToolValidator {
    schema: String,
}

impl LuaToolValidator {
    /// A validator for this schema text.
    pub fn new(schema: &str) -> (r: Result<LuaToolValidator, NeovimError>)
        ensures
            r matches Ok(v) && v.schema_view() == schema@,
    {
        Ok(LuaToolValidator { schema: schema.to_owned() })
    }

    /// The schema text this validator holds.
    pub closed spec fn schema_view(self) -> Seq<char> {
        self.schema@
    }

    /// Whether `params` validates against the schema.
    pub fn is_valid(&self, params: &str) -> (r: bool)
        ensures
            r == schema_accepts(self.schema_view(), params@),
    {
        jsonschema_is_valid(self.schema.as_str(), params)
    }

    /// As `is_valid`, failing with a message instead of `false`.
    pub fn validate(&self, params: &str) -> (r: Result<(), String>)
        ensures
            (r is Ok) == schema_accepts(self.schema_view(), params@),
    {
        if self.is_valid(params) {
            Ok(())
        } else {
            Err(String::from_str("Validation failed"))
        }
    }
}

/// The remote code that executes a discovered tool with these
/// already-serialized JSON arguments.
pub open spec fn execute_tool_code_chars(tool_name: Seq<char>, args_json: Seq<char>) -> Seq<
    char,
> {
    "return require('nvim-mcp').execute_tool('"@ + tool_name + "', "@ + args_json + ")"@
}

/// The remote code that asks a connection for its registered tool
/// table; its converted reply is what `discover_lua_tools` reads.
pub fn discovery_code() -> (r: &'static str)
    ensures
        r@ == "return require('nvim-mcp').get_registered_tools()"@,
{
    "return require('nvim-mcp').get_registered_tools()"
}

/// Builds the remote code that executes a discovered tool with
/// already-serialized JSON arguments.
pub fn build_execute_tool_code(tool_name: &str, args_json: &str) -> (r: String)
    ensures
        r@ == execute_tool_code_chars(tool_name@, args_json@),
{
    let mut code = String::from_str("return require('nvim-mcp').execute_tool('");
    code.append(tool_name);
    code.append("', ");
    code.append(args_json);
    code.append(")");
    code
}

/// An `Api` error with the given note.
fn api_text(note: &str) -> (r: NeovimError)
    ensures
        r is Api,
{
    NeovimError::Api(note.to_owned())
}

} // verus!
