//! MCP (Model Context Protocol) server for fleet dispatch.
//!
//! Exposes fleet dispatch as JSON-RPC 2.0 tools so that an agent can list units,
//! assign operators, and drive autonomy handovers: `list_units`, `assign_unit`,
//! `engage_autonomy`, `take_manual_control`.
//!
//! [`McpServer::handle`] takes a parsed request and returns a response, so it
//! can be served over any byte channel.
use vstd::prelude::*;
use crate::VERSION;
use crate::cloud::error::{error_text, CloudError, CloudErrorView};
use crate::cloud::fleet::{
    assigns, info_of, info_value, mode_change, result_of, Fleet, UnitInfo, UnitState, UnitTransport,
};
use crate::cloud::json::{as_uint, uint_value, Json, Value};
use crate::cloud::recorder::Recorder;
use crate::num::binary::{double_of_u64, nearest, Width};
use crate::runtime::mode::Mode;
use crate::text::{decimal, push_decimal, same_text};

verus! {

/// The MCP server. Stateless across calls except through the [`Fleet`] it is
/// handed on each [`handle`](Self::handle).
#[derive(Debug, Clone, Copy)]
pub struct McpServer;

// --- Requests ----------------------------------------------------------------------

/// The text under `key`, if there is one.
pub open spec fn text_field(v: Value, key: Seq<char>) -> Option<Seq<char>> {
    match v.field(key) {
        Some(Value::Str(s)) => Some(s),
        _ => None,
    }
}

/// The text under `key`, or none at all as the empty text.
pub open spec fn text_or_empty(v: Value, key: Seq<char>) -> Seq<char> {
    match text_field(v, key) {
        Some(s) => s,
        None => Seq::empty(),
    }
}

/// The value under `key`, or null.
pub open spec fn field_or_null(v: Value, key: Seq<char>) -> Value {
    match v.field(key) {
        Some(x) => x,
        None => Value::Null,
    }
}

/// The unsigned integer under `key`, if there is a number.
pub open spec fn uint_field(v: Value, key: Seq<char>) -> Option<u64> {
    match v.field(key) {
        Some(x) => as_uint(x),
        None => None,
    }
}

/// The text under `key`, if there is one.
pub fn text_at<'a>(v: &'a Json, key: &str) -> (r: Option<&'a str>)
    ensures
        match r {
            Some(s) => text_field(v@, key@) == Some(s@),
            None => text_field(v@, key@) is None,
        },
{
    match v.get(key) {
        Some(x) => x.as_str(),
        None => None,
    }
}

fn value_at(v: &Json, key: &str) -> (r: Json)
    ensures
        r@ == field_or_null(v@, key@),
{
    match v.get(key) {
        Some(x) => x.clone(),
        None => Json::Null,
    }
}

fn uint_at(v: &Json, key: &str) -> (r: Option<u64>)
    ensures
        r == uint_field(v@, key@),
{
    match v.get(key) {
        Some(x) => x.as_u64(),
        None => None,
    }
}

/// The name of the tool that a request calls, if it calls one.
pub open spec fn tool_called(req: Value) -> Option<Seq<char>> {
    if text_or_empty(req, "method"@) == "tools/call"@ {
        Some(text_or_empty(field_or_null(req, "params"@), "name"@))
    } else {
        None
    }
}

// --- Replies -----------------------------------------------------------------------

/// The reply that carries a result.
pub open spec fn ok_reply(id: Value, result: Value) -> Value {
    Value::Obj(seq![("jsonrpc"@, Value::Str("2.0"@)), ("id"@, id), ("result"@, result)])
}

/// The integer `-n` as a JSON number.
pub open spec fn negative_value(n: u64) -> Value {
    Value::Num((nearest(Width::Double, n as nat, 1) + 0x8000_0000_0000_0000) as u64)
}

/// The reply that carries an error, with the code `-code`.
pub open spec fn error_reply(id: Value, code: u64, message: Seq<char>) -> Value {
    Value::Obj(
        seq![
            ("jsonrpc"@, Value::Str("2.0"@)),
            ("id"@, id),
            (
                "error"@,
                Value::Obj(
                    seq![
                        ("code"@, negative_value(code)),
                        ("message"@, Value::Str(message)),
                    ],
                ),
            ),
        ],
    )
}

fn json_rpc_ok(id: Json, result: Json) -> (r: Json)
    ensures
        r@ == ok_reply(id@, result@),
{
    let all: [(&str, Json); 3] = [("jsonrpc", Json::str("2.0")), ("id", id), ("result", result)];
    let r: Json = Json::obj(all.as_slice());
    assert(r@->Obj_0 =~= ok_reply(id@, result@)->Obj_0);
    r
}

fn json_rpc_err(id: Json, code: u64, msg: String) -> (r: Json)
    ensures
        r@ == error_reply(id@, code, msg@),
{
    let number: u64 = double_of_u64(code) + 0x8000_0000_0000_0000;
    let inner: [(&str, Json); 2] = [("code", Json::num(number)), ("message", Json::Str(msg))];
    let error: Json = Json::obj(inner.as_slice());
    assert(error@->Obj_0 =~= seq![
        ("code"@, negative_value(code)),
        ("message"@, Value::Str(msg@)),
    ]);
    let all: [(&str, Json); 3] = [("jsonrpc", Json::str("2.0")), ("id", id), ("error", error)];
    let r: Json = Json::obj(all.as_slice());
    assert(r@->Obj_0 =~= error_reply(id@, code, msg@)->Obj_0);
    r
}

/// What the server says of itself.
pub open spec fn server_value() -> Value {
    Value::Obj(
        seq![
            ("protocolVersion"@, Value::Str("2024-11-05"@)),
            ("capabilities"@, Value::Obj(seq![("tools"@, Value::Obj(Seq::empty()))])),
            (
                "serverInfo"@,
                Value::Obj(
                    seq![
                        ("name"@, Value::Str("tpt-teleop-fleet"@)),
                        ("version"@, Value::Str(VERSION@)),
                    ],
                ),
            ),
        ],
    )
}

fn server_json() -> (r: Json)
    ensures
        r@ == server_value(),
{
    let none: [(&str, Json); 0] = [];
    let empty: Json = Json::obj(none.as_slice());
    assert(empty@->Obj_0 =~= Seq::<(Seq<char>, Value)>::empty());
    let able: [(&str, Json); 1] = [("tools", empty)];
    let capabilities: Json = Json::obj(able.as_slice());
    assert(capabilities@->Obj_0 =~= seq![("tools"@, empty@)]);
    let who: [(&str, Json); 2] = [
        ("name", Json::str("tpt-teleop-fleet")),
        ("version", Json::str(VERSION)),
    ];
    let info: Json = Json::obj(who.as_slice());
    assert(info@->Obj_0 =~= seq![
        ("name"@, Value::Str("tpt-teleop-fleet"@)),
        ("version"@, Value::Str(VERSION@)),
    ]);
    let all: [(&str, Json); 3] = [
        ("protocolVersion", Json::str("2024-11-05")),
        ("capabilities", capabilities),
        ("serverInfo", info),
    ];
    let r: Json = Json::obj(all.as_slice());
    assert(r@->Obj_0 =~= server_value()->Obj_0);
    r
}

/// A tool descriptor with an `object` input schema.
pub open spec fn tool_value(
    name: Seq<char>,
    desc: Seq<char>,
    props: Seq<(Seq<char>, Seq<char>)>,
) -> Value {
    Value::Obj(
        seq![
            ("name"@, Value::Str(name)),
            ("description"@, Value::Str(desc)),
            (
                "inputSchema"@,
                Value::Obj(
                    seq![
                        ("type"@, Value::Str("object"@)),
                        (
                            "properties"@,
                            Value::Obj(
                                Seq::new(
                                    props.len(),
                                    |i: int| (props[i].0, Value::Str(props[i].1)),
                                ),
                            ),
                        ),
                        (
                            "required"@,
                            Value::Arr(Seq::new(props.len(), |i: int| Value::Str(props[i].0))),
                        ),
                    ],
                ),
            ),
        ],
    )
}

/// The texts of property pairs.
pub open spec fn prop_texts(props: Seq<(&'static str, &'static str)>) -> Seq<
    (Seq<char>, Seq<char>),
> {
    Seq::new(props.len(), |i: int| (props[i].0@, props[i].1@))
}

/// Builds a tool descriptor with an `object` input schema.
fn tool(name: &str, desc: &str, props: &[(&'static str, &'static str)]) -> (r: Json)
    ensures
        r@ == tool_value(name@, desc@, prop_texts(props@)),
{
    let ghost p = prop_texts(props@);
    let mut keys: Vec<Json> = Vec::new();
    let mut i: usize = 0;
    while i < props.len()
        invariant
            i <= props@.len(),
            keys@.len() == i,
            forall|j: int| 0 <= j < i ==> (#[trigger] keys@[j])@ == Value::Str(props@[j].0@),
        decreases props@.len() - i,
    {
        keys.push(Json::str(props[i].0));
        i = i + 1;
    }
    let required: Json = Json::arr(keys);
    assert(required@->Arr_0 =~= Seq::new(p.len(), |i: int| Value::Str(p[i].0)));
    let properties: Json = Json::obj_str(props);
    assert(properties@->Obj_0 =~= Seq::new(p.len(), |i: int| (p[i].0, Value::Str(p[i].1))));
    let parts: [(&str, Json); 3] = [
        ("type", Json::str("object")),
        ("properties", properties),
        ("required", required),
    ];
    let schema: Json = Json::obj(parts.as_slice());
    assert(schema@->Obj_0 =~= seq![
        ("type"@, Value::Str("object"@)),
        ("properties"@, properties@),
        ("required"@, required@),
    ]);
    let all: [(&str, Json); 3] = [
        ("name", Json::str(name)),
        ("description", Json::str(desc)),
        ("inputSchema", schema),
    ];
    let r: Json = Json::obj(all.as_slice());
    assert(r@->Obj_0 =~= tool_value(name@, desc@, p)->Obj_0);
    r
}

/// The tools that the server offers.
pub open spec fn tools_value() -> Value {
    Value::Obj(
        seq![
            (
                "tools"@,
                Value::Arr(
                    seq![
                        tool_value(
                            "list_units"@,
                            "List every unit registered with the fleet, with mode and status."@,
                            Seq::empty(),
                        ),
                        tool_value(
                            "assign_unit"@,
                            "Assign a human or AI operator to a unit."@,
                            seq![("unit_id"@, "integer"@), ("operator"@, "string"@)],
                        ),
                        tool_value(
                            "engage_autonomy"@,
                            "Command a unit into AUTO mode (autonomy drives; operator supervises)."@,
                            seq![("unit_id"@, "integer"@)],
                        ),
                        tool_value(
                            "take_manual_control"@,
                            "Command a unit into FULL-TELEOP mode (operator drives directly)."@,
                            seq![("unit_id"@, "integer"@)],
                        ),
                    ],
                ),
            ),
        ],
    )
}

fn tools_json() -> (r: Json)
    ensures
        r@ == tools_value(),
{
    let none: [(&'static str, &'static str); 0] = [];
    let both: [(&'static str, &'static str); 2] = [("unit_id", "integer"), ("operator", "string")];
    let one: [(&'static str, &'static str); 1] = [("unit_id", "integer")];
    proof {
        assert(prop_texts(none@) =~= Seq::empty());
        assert(prop_texts(both@) =~= seq![("unit_id"@, "integer"@), ("operator"@, "string"@)]);
        assert(prop_texts(one@) =~= seq![("unit_id"@, "integer"@)]);
    }
    let mut items: Vec<Json> = Vec::new();
    items.push(
        tool(
            "list_units",
            "List every unit registered with the fleet, with mode and status.",
            none.as_slice(),
        ),
    );
    items.push(
        tool("assign_unit", "Assign a human or AI operator to a unit.", both.as_slice()),
    );
    items.push(
        tool(
            "engage_autonomy",
            "Command a unit into AUTO mode (autonomy drives; operator supervises).",
            one.as_slice(),
        ),
    );
    items.push(
        tool(
            "take_manual_control",
            "Command a unit into FULL-TELEOP mode (operator drives directly).",
            one.as_slice(),
        ),
    );
    let list: Json = Json::arr(items);
    let all: [(&str, Json); 1] = [("tools", list)];
    let r: Json = Json::obj(all.as_slice());
    proof {
        assert(list@->Arr_0 =~= (tools_value()->Obj_0)[0].1->Arr_0);
        assert(r@->Obj_0 =~= tools_value()->Obj_0);
    }
    r
}

/// The units of a fleet as JSON, in order.
pub open spec fn unit_values<R: Recorder>(units: Seq<UnitState<R>>) -> Value {
    Value::Arr(units.map_values(|u: UnitState<R>| info_value(info_of(u))))
}

/// A list of units under `key`, with their number.
pub open spec fn listing<R: Recorder>(key: Seq<char>, units: Seq<UnitState<R>>) -> Value {
    Value::Obj(seq![(key, unit_values(units)), ("count"@, uint_value(units.len() as u64))])
}

/// A list of the units of a fleet under `key`, with their number.
pub fn listing_json<T: UnitTransport, R: Recorder>(key: &str, fleet: &Fleet<T, R>) -> (r: Json)
    requires
        fleet.wf(),
    ensures
        r@ == listing(key@, fleet.units()),
{
    let infos: Vec<UnitInfo> = fleet.list_units();
    let mut items: Vec<Json> = Vec::new();
    let mut i: usize = 0;
    while i < infos.len()
        invariant
            i <= infos@.len(),
            items@.len() == i,
            forall|j: int| 0 <= j < i ==> (#[trigger] items@[j])@ == info_value(infos@[j]@),
        decreases infos@.len() - i,
    {
        items.push(infos[i].to_json());
        i = i + 1;
    }
    let list: Json = Json::arr(items);
    assert(list@->Arr_0 =~= unit_values(fleet.units())->Arr_0);
    let all: [(&str, Json); 2] = [(key, list), ("count", Json::uint(infos.len() as u64))];
    let r: Json = Json::obj(all.as_slice());
    assert(r@->Obj_0 =~= listing(key@, fleet.units())->Obj_0);
    r
}

// --- Calls -------------------------------------------------------------------------

/// The reply to a call that assigned `unit`.
pub open spec fn assigned_value(unit: u64) -> Value {
    Value::Obj(
        seq![("unit_id"@, uint_value(unit)), ("assigned"@, Value::Str(decimal(unit as nat)))],
    )
}

/// The reply to a call of `tool` that changed the mode of `unit`.
pub open spec fn driven_value(unit: u64, tool: Seq<char>) -> Value {
    Value::Obj(
        seq![
            ("unit_id"@, uint_value(unit)),
            ("tool"@, Value::Str(tool)),
            ("ok"@, Value::Bool(true)),
        ],
    )
}

/// The reply to a call that the fleet answered with `r`.
pub open spec fn call_reply(id: Value, result: Value, r: Result<(), CloudErrorView>) -> Value {
    match r {
        Ok(_) => ok_reply(id, result),
        Err(e) => error_reply(id, 32000, error_text(e)),
    }
}

/// Assigning `operator` to `unit` can lead from the fleet `before` to `after`
/// with the given reply.
pub open spec fn call_assigns<T: UnitTransport, R: Recorder>(
    before: Fleet<T, R>,
    after: Fleet<T, R>,
    unit: u64,
    operator: Seq<char>,
    id: Value,
    reply: Value,
) -> bool {
    exists|r: Result<(), CloudErrorView>| #[trigger]
        assigns(before, after, unit, operator, r) && reply == call_reply(
            id,
            assigned_value(unit),
            r,
        )
}

/// Commanding `unit` into `target` by the tool `name` can lead from the fleet
/// `before` to `after` with the given reply.
pub open spec fn call_drives<T: UnitTransport, R: Recorder>(
    before: Fleet<T, R>,
    after: Fleet<T, R>,
    unit: u64,
    target: Mode,
    name: Seq<char>,
    id: Value,
    now_ns: u64,
    reply: Value,
) -> bool {
    exists|r: Result<(), CloudErrorView>| #[trigger]
        mode_change(before, after, unit, target, now_ns, r) && reply == call_reply(
            id,
            driven_value(unit, name),
            r,
        )
}

/// Calling the tool `name` can lead from the fleet `before` to `after` with the
/// given reply.
pub open spec fn calls<T: UnitTransport, R: Recorder>(
    before: Fleet<T, R>,
    after: Fleet<T, R>,
    name: Seq<char>,
    args: Value,
    id: Value,
    now_ns: u64,
    reply: Value,
) -> bool {
    let unit = uint_field(args, "unit_id"@);
    if name == "list_units"@ {
        after.same(&before) && reply == ok_reply(id, listing("units"@, before.units()))
    } else if name == "assign_unit"@ {
        match (unit, text_field(args, "operator"@)) {
            (Some(u), Some(o)) => call_assigns(before, after, u, o, id, reply),
            _ => after.same(&before) && reply == error_reply(
                id,
                32602,
                "missing unit_id/operator"@,
            ),
        }
    } else if name == "engage_autonomy"@ || name == "take_manual_control"@ {
        let target = if name == "engage_autonomy"@ {
            Mode::Auto
        } else {
            Mode::FullTeleop
        };
        match unit {
            Some(u) => call_drives(before, after, u, target, name, id, now_ns, reply),
            None => after.same(&before) && reply == error_reply(id, 32602, "missing unit_id"@),
        }
    } else {
        after.same(&before) && reply == error_reply(id, 32601, "unknown tool: "@ + name)
    }
}

/// Handling the request `req` can lead from the fleet `before` to `after` with
/// the given reply.
pub open spec fn handles<T: UnitTransport, R: Recorder>(
    before: Fleet<T, R>,
    after: Fleet<T, R>,
    req: Value,
    now_ns: u64,
    reply: Value,
) -> bool {
    let method = text_or_empty(req, "method"@);
    let id = field_or_null(req, "id"@);
    let params = field_or_null(req, "params"@);
    if method == "initialize"@ {
        after.same(&before) && reply == ok_reply(id, server_value())
    } else if method == "tools/list"@ {
        after.same(&before) && reply == ok_reply(id, tools_value())
    } else if method == "tools/call"@ {
        calls(
            before,
            after,
            text_or_empty(params, "name"@),
            field_or_null(params, "arguments"@),
            id,
            now_ns,
            reply,
        )
    } else {
        after.same(&before) && reply == error_reply(id, 32601, "method not found: "@ + method)
    }
}

impl McpServer {
    /// A new MCP server.
    pub fn new() -> (r: McpServer)
        ensures
            r == McpServer,
    {
        McpServer
    }

    /// Handles one JSON-RPC 2.0 request object, mutating `fleet` as needed.
    pub fn handle<T: UnitTransport, R: Recorder>(
        &self,
        req: &Json,
        fleet: &mut Fleet<T, R>,
        now_ns: u64,
    ) -> (reply: Json)
        requires
            old(fleet).wf(),
        ensures
            final(fleet).wf(),
            handles(*old(fleet), *final(fleet), req@, now_ns, reply@),
    {
        let method: &str = match text_at(req, "method") {
            Some(m) => m,
            None => "",
        };
        proof {
            reveal_strlit("");
            assert(""@ =~= Seq::<char>::empty());
        }
        let id: Json = value_at(req, "id");
        if same_text(method, "initialize") {
            return json_rpc_ok(id, server_json());
        }
        if same_text(method, "tools/list") {
            return json_rpc_ok(id, tools_json());
        }
        if same_text(method, "tools/call") {
            let params: Json = value_at(req, "params");
            let name: &str = match text_at(&params, "name") {
                Some(n) => n,
                None => "",
            };
            let args: Json = value_at(&params, "arguments");
            return self.call_tool(name, &args, fleet, id, now_ns);
        }
        let mut msg: String = "method not found: ".to_owned();
        msg.append(method);
        json_rpc_err(id, 32601, msg)
    }

    fn call_tool<T: UnitTransport, R: Recorder>(
        &self,
        name: &str,
        args: &Json,
        fleet: &mut Fleet<T, R>,
        id: Json,
        now_ns: u64,
    ) -> (reply: Json)
        requires
            old(fleet).wf(),
        ensures
            final(fleet).wf(),
            calls(*old(fleet), *final(fleet), name@, args@, id@, now_ns, reply@),
    {
        proof {
            reveal_strlit("list_units");
            reveal_strlit("assign_unit");
            reveal_strlit("engage_autonomy");
            reveal_strlit("take_manual_control");
            assert("list_units"@.len() == 10 && "assign_unit"@.len() == 11
                && "engage_autonomy"@.len() == 15 && "take_manual_control"@.len() == 19);
        }
        if same_text(name, "list_units") {
            return json_rpc_ok(id, listing_json("units", &*fleet));
        }
        if same_text(name, "assign_unit") {
            return self.call_assign(args, fleet, id);
        }
        if same_text(name, "engage_autonomy") {
            return self.call_mode("engage_autonomy", Mode::Auto, args, fleet, id, now_ns);
        }
        if same_text(name, "take_manual_control") {
            return self.call_mode(
                "take_manual_control",
                Mode::FullTeleop,
                args,
                fleet,
                id,
                now_ns,
            );
        }
        let mut msg: String = "unknown tool: ".to_owned();
        msg.append(name);
        json_rpc_err(id, 32601, msg)
    }

    fn call_assign<T: UnitTransport, R: Recorder>(
        &self,
        args: &Json,
        fleet: &mut Fleet<T, R>,
        id: Json,
    ) -> (reply: Json)
        requires
            old(fleet).wf(),
        ensures
            final(fleet).wf(),
            match (uint_field(args@, "unit_id"@), text_field(args@, "operator"@)) {
                (Some(u), Some(o)) => call_assigns(
                    *old(fleet),
                    *final(fleet),
                    u,
                    o,
                    id@,
                    reply@,
                ),
                _ => final(fleet).same(&*old(fleet)) && reply@ == error_reply(
                    id@,
                    32602,
                    "missing unit_id/operator"@,
                ),
            },
    {
        let uid: Option<u64> = uint_at(args, "unit_id");
        let op: Option<&str> = text_at(args, "operator");
        match (uid, op) {
            (Some(u), Some(o)) => {
                let res: Result<(), CloudError> = fleet.assign(u, o.to_owned());
                assert(assigns(*old(fleet), *fleet, u, o@, result_of(res)));
                match res {
                    Ok(_) => {
                        let mut n: String = String::new();
                        push_decimal(&mut n, u);
                        assert(n@ =~= decimal(u as nat));
                        let all: [(&str, Json); 2] = [
                            ("unit_id", Json::uint(u)),
                            ("assigned", Json::Str(n)),
                        ];
                        let done: Json = Json::obj(all.as_slice());
                        assert(done@->Obj_0 =~= assigned_value(u)->Obj_0);
                        json_rpc_ok(id, done)
                    },
                    Err(e) => json_rpc_err(id, 32000, e.message()),
                }
            },
            _ => json_rpc_err(id, 32602, "missing unit_id/operator".to_owned()),
        }
    }

    fn call_mode<T: UnitTransport, R: Recorder>(
        &self,
        name: &str,
        target: Mode,
        args: &Json,
        fleet: &mut Fleet<T, R>,
        id: Json,
        now_ns: u64,
    ) -> (reply: Json)
        requires
            old(fleet).wf(),
        ensures
            final(fleet).wf(),
            match uint_field(args@, "unit_id"@) {
                Some(u) => call_drives(
                    *old(fleet),
                    *final(fleet),
                    u,
                    target,
                    name@,
                    id@,
                    now_ns,
                    reply@,
                ),
                None => final(fleet).same(&*old(fleet)) && reply@ == error_reply(
                    id@,
                    32602,
                    "missing unit_id"@,
                ),
            },
    {
        match uint_at(args, "unit_id") {
            Some(u) => {
                let res: Result<(), CloudError> = fleet.set_mode(u, target, now_ns);
                assert(mode_change(*old(fleet), *fleet, u, target, now_ns, result_of(res)));
                match res {
                    Ok(_) => {
                        let all: [(&str, Json); 3] = [
                            ("unit_id", Json::uint(u)),
                            ("tool", Json::str(name)),
                            ("ok", Json::Bool(true)),
                        ];
                        let done: Json = Json::obj(all.as_slice());
                        assert(done@->Obj_0 =~= driven_value(u, name@)->Obj_0);
                        json_rpc_ok(id, done)
                    },
                    Err(e) => json_rpc_err(id, 32000, e.message()),
                }
            },
            None => json_rpc_err(id, 32602, "missing unit_id".to_owned()),
        }
    }
}

impl Default for McpServer {
    fn default() -> (r: McpServer)
        ensures
            r == McpServer,
    {
        McpServer::new()
    }
}

/// Every reply is a JSON-RPC 2.0 object that carries the id of its request and
/// either a result or an error.
pub proof fn law_reply_answers_the_request<T: UnitTransport, R: Recorder>(
    before: Fleet<T, R>,
    after: Fleet<T, R>,
    req: Value,
    now_ns: u64,
    reply: Value,
)
    requires
        handles(before, after, req, now_ns, reply),
    ensures
        reply.field("jsonrpc"@) == Some(Value::Str("2.0"@)),
        reply.field("id"@) == Some(field_or_null(req, "id"@)),
        reply.field("result"@) is Some <==> reply.field("error"@) is None,
{
    let id = field_or_null(req, "id"@);
    reveal_strlit("jsonrpc");
    reveal_strlit("id");
    reveal_strlit("result");
    reveal_strlit("error");
    assert("jsonrpc"@.len() == 7 && "id"@.len() == 2 && "result"@.len() == 6 && "error"@.len() == 5);
    assert forall|r: Value| #[trigger] ok_reply(id, r) == reply implies {
        &&& reply.field("jsonrpc"@) == Some(Value::Str("2.0"@))
        &&& reply.field("id"@) == Some(id)
        &&& reply.field("result"@) is Some
        &&& reply.field("error"@) is None
    } by {
        reveal_with_fuel(crate::cloud::json::lookup, 5);
        let f = ok_reply(id, r)->Obj_0;
        assert(f.drop_first().drop_first().drop_first().len() == 0);
    }
    assert forall|c: u64, m: Seq<char>| #[trigger] error_reply(id, c, m) == reply implies {
        &&& reply.field("jsonrpc"@) == Some(Value::Str("2.0"@))
        &&& reply.field("id"@) == Some(id)
        &&& reply.field("result"@) is None
        &&& reply.field("error"@) is Some
    } by {
        reveal_with_fuel(crate::cloud::json::lookup, 5);
        let f = error_reply(id, c, m)->Obj_0;
        assert(f.drop_first().drop_first().drop_first().len() == 0);
    }
}

} // verus!
