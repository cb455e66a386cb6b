//! What the replies of the fleet say of its units, and how they say no.
use vstd::prelude::*;
use vstd::arithmetic::power2::pow2;
use crate::cloud::auth::{opening_in, Verdict};
use crate::cloud::dispatch::{
    answers, answers_mode, body_value, handshake_action, health_value, lemma_fixed_paths,
    unit_id_in, unit_value, ActionView,
};
use crate::cloud::fleet::{
    info_of, info_value, lemma_unit_at, mode_named, Fleet, UnitState, UnitTransport,
};
use crate::cloud::fleet_laws::{
    calls_tool, law_paths_name_unit_and_action, lemma_action_path, lemma_unit_is_at, unit_path,
};
use crate::cloud::http::{json_response, RequestView};
use crate::cloud::json::{lookup, uint_value, Value};
use crate::cloud::mcp::{
    assigned_value, calls, driven_value, error_reply, field_or_null, handles, listing,
    negative_value, ok_reply, text_field, text_or_empty, tool_called, tool_value, tools_value,
    uint_field,
};
use crate::cloud::recorder::Recorder;
use crate::cloud::server::{handshake_answer, HandshakeResult};
use crate::cloud::sfu::live_count;
use crate::num::binary::{nearest, units, Width};
use crate::num::decimal::{magnitude, sign_set};
use crate::num::integer_laws::law_small_integers_are_exact;
use crate::runtime::mode::Mode;
use crate::text::{decimal, lemma_first_at, lemma_first_at_is, lower_ascii, segments, text_opt};

verus! {

/// `v` is the JSON of the unit `u`: each of its properties under its key.
pub open spec fn describes<R: Recorder>(v: Value, u: UnitState<R>) -> bool {
    &&& v.field("id"@) == Some(uint_value(u.id))
    &&& v.field("addr"@) == Some(Value::Str(u.addr@))
    &&& v.field("mode"@) == Some(
        Value::Str(
            match u.mode {
                Mode::Auto => "AUTO"@,
                Mode::Assist => "ASSIST"@,
                Mode::FullTeleop => "TELEOP"@,
                Mode::EmergencyStop => "ESTOP"@,
            },
        ),
    )
    &&& v.field("assigned_operator"@) == Some(
        match text_opt(u.assigned_operator) {
            Some(o) => Value::Str(o),
            None => Value::Null,
        },
    )
    &&& v.field("last_seq"@) == Some(uint_value(u.last_seq))
    &&& v.field("frames_recorded"@) == Some(uint_value(u.recorder.count()))
    &&& v.field("subscribers"@) == Some(uint_value(live_count(u.sfu@) as u64))
    &&& v.field("last_seen_ns"@) == Some(uint_value(u.last_seen_ns))
}

/// The snapshot of a unit describes it.
pub proof fn law_snapshot_describes_the_unit<R: Recorder>(u: UnitState<R>)
    ensures
        describes(info_value(info_of(u)), u),
{
    reveal_strlit("id");
    reveal_strlit("addr");
    reveal_strlit("mode");
    reveal_strlit("assigned_operator");
    reveal_strlit("last_seq");
    reveal_strlit("frames_recorded");
    reveal_strlit("subscribers");
    reveal_strlit("last_seen_ns");
    assert("id"@.len() == 2 && "addr"@.len() == 4 && "mode"@.len() == 4);
    assert("addr"@[0] == 'a' && "mode"@[0] == 'm');
    assert("assigned_operator"@.len() == 17 && "last_seq"@.len() == 8);
    assert("frames_recorded"@.len() == 15 && "subscribers"@.len() == 11);
    assert("last_seen_ns"@.len() == 12);
    reveal_with_fuel(lookup, 9);
}

/// `v` lists the units of `fleet` under `key`, in order, with their number.
pub open spec fn lists<T: UnitTransport, R: Recorder>(
    v: Value,
    key: Seq<char>,
    fleet: Fleet<T, R>,
) -> bool {
    &&& v.field("count"@) == Some(uint_value(fleet.units().len() as u64))
    &&& v.field(key) matches Some(Value::Arr(all))
    &&& all.len() == fleet.units().len()
    &&& forall|i: int|
        0 <= i < all.len() ==> describes(#[trigger] all[i], fleet.units()[i])
}

proof fn lemma_listing<T: UnitTransport, R: Recorder>(key: Seq<char>, fleet: Fleet<T, R>)
    requires
        key != "count"@,
    ensures
        lists(listing(key, fleet.units()), key, fleet),
{
    reveal_with_fuel(lookup, 3);
    let v = listing(key, fleet.units());
    let all = v.field(key)->0->Arr_0;
    assert forall|i: int| 0 <= i < all.len() implies describes(
        #[trigger] all[i],
        fleet.units()[i],
    ) by {
        law_snapshot_describes_the_unit(fleet.units()[i]);
    }
}

proof fn lemma_keys()
    ensures
        "units"@ != "count"@,
        "sessions"@ != "count"@,
        "tools/call"@ != "initialize"@,
        "tools/call"@ != "tools/list"@,
        "/api/units"@ != "/api/health"@,
        "/api/sessions"@ != "/api/health"@,
        "/api/sessions"@ != "/api/units"@,
{
    reveal_strlit("units");
    reveal_strlit("count");
    reveal_strlit("sessions");
    reveal_strlit("tools/call");
    reveal_strlit("initialize");
    reveal_strlit("tools/list");
    reveal_strlit("/api/units");
    reveal_strlit("/api/health");
    reveal_strlit("/api/sessions");
    assert("units"@[0] == 'u' && "count"@[0] == 'c' && "sessions"@[0] == 's');
    assert("initialize"@[0] == 'i' && "tools/list"@[6] == 'l' && "tools/call"@[6] == 'c');
    assert("/api/units"@.len() == 10 && "/api/health"@.len() == 11 && "/api/sessions"@.len() == 13);
}

/// A call of `list_units` is answered with every unit of the fleet, each with its
/// properties, and changes nothing.
pub proof fn law_list_tool_lists_the_units<T: UnitTransport, R: Recorder>(
    before: Fleet<T, R>,
    after: Fleet<T, R>,
    req: Value,
    args: Value,
    now_ns: u64,
    reply: Value,
)
    requires
        handles(before, after, req, now_ns, reply),
        calls_tool(req, "list_units"@, args),
    ensures
        reply.field("result"@) matches Some(v) && lists(v, "units"@, before),
        after.same(&before),
{
    lemma_keys();
    lemma_listing("units"@, before);
    let id = field_or_null(req, "id"@);
    assert(calls(before, after, "list_units"@, args, id, now_ns, reply));
    lemma_result(id, listing("units"@, before.units()));
}

proof fn lemma_result(id: Value, result: Value)
    ensures
        ok_reply(id, result).field("result"@) == Some(result),
{
    reveal_strlit("jsonrpc");
    reveal_strlit("id");
    reveal_strlit("result");
    assert("jsonrpc"@.len() == 7 && "id"@.len() == 2 && "result"@.len() == 6);
    reveal_with_fuel(lookup, 4);
}

/// `GET /api/units/<id>` of a unit of the fleet is answered `200` with the JSON
/// that describes that unit; `GET /api/units` and `GET /api/sessions` with a list
/// of them all.
pub proof fn law_reading_describes_the_units<T: UnitTransport, R: Recorder>(
    before: Fleet<T, R>,
    after: Fleet<T, R>,
    gated: bool,
    has_identity: bool,
    verdict: Verdict,
    req: RequestView,
    i: int,
    now_ns: u64,
    action: ActionView,
)
    requires
        before.wf(),
        answers(before, after, gated, has_identity, verdict, req, now_ns, action),
        req.method is Get,
        0 <= i < before.units().len(),
    ensures
        req.path == "/api/units/"@ + decimal(before.units()[i].id as nat) ==> exists|v: Value|
            #[trigger] describes(v, before.units()[i]) && action == ActionView::Reply(
                json_response(200, v),
            ),
        req.path == "/api/units"@ ==> exists|v: Value| #[trigger]
            lists(v, "units"@, before) && action == ActionView::Reply(json_response(200, v)),
        req.path == "/api/sessions"@ ==> exists|v: Value| #[trigger]
            lists(v, "sessions"@, before) && action == ActionView::Reply(json_response(200, v)),
{
    lemma_keys();
    lemma_fixed_paths();
    let u = before.units()[i];
    if req.path == "/api/units/"@ + decimal(u.id as nat) {
        law_paths_name_unit_and_action(u.id, seq!['x']);
        lemma_unit_is_at(before, i);
        law_snapshot_describes_the_unit(u);
        assert(describes(info_value(info_of(u)), u));
    }
    if req.path == "/api/units"@ || req.path == "/api/sessions"@ {
        lemma_short_paths();
        lemma_listing("units"@, before);
        lemma_listing("sessions"@, before);
        assert(lists(listing("units"@, before.units()), "units"@, before));
        assert(lists(listing("sessions"@, before.units()), "sessions"@, before));
    }
}

/// The paths of the lists name no unit.
proof fn lemma_short_paths()
    ensures
        unit_id_in("/api/units"@) is None,
        unit_id_in("/api/sessions"@) is None,
{
    reveal_strlit("/api/units");
    reveal_strlit("/api/sessions");
    let a = "/api/units"@;
    let b = "/api/sessions"@;
    lemma_first_at_is(a, '/', 0);
    lemma_first_at_is(b, '/', 0);
    let c = a.skip(1);
    let d = b.skip(1);
    lemma_first_at_is(c, '/', 3);
    lemma_first_at_is(d, '/', 3);
    lemma_first_at(c.skip(4), '/');
    lemma_first_at(d.skip(4), '/');
    assert(segments(c.skip(4), '/').len() == 1);
    assert(segments(d.skip(4), '/').len() == 1);
    assert(segments(c, '/').len() == 2);
    assert(segments(d, '/').len() == 2);
}

// --- Errors ------------------------------------------------------------------------------

/// `v` is the JSON number `-n`.
pub open spec fn is_minus(v: Value, n: nat) -> bool {
    v matches Value::Num(bits) && sign_set(Width::Double, bits as nat) && units(
        Width::Double,
        magnitude(Width::Double, bits as nat),
    ) == n * pow2(Width::Double.scale())
}

/// `reply` carries an error with the code `-n`.
pub open spec fn fails_with(reply: Value, n: nat) -> bool {
    &&& reply.field("error"@) matches Some(e)
    &&& e.field("code"@) matches Some(c)
    &&& is_minus(c, n)
}

proof fn lemma_fails_with(id: Value, n: u64, message: Seq<char>)
    requires
        n < 0x20_0000_0000_0000,
    ensures
        fails_with(error_reply(id, n, message), n as nat),
        error_reply(id, n, message).field("error"@)->0.field("message"@) == Some(
            Value::Str(message),
        ),
{
    reveal_strlit("jsonrpc");
    reveal_strlit("id");
    reveal_strlit("error");
    reveal_strlit("code");
    reveal_strlit("message");
    assert("jsonrpc"@.len() == 7 && "id"@.len() == 2 && "error"@.len() == 5);
    assert("code"@.len() == 4 && "message"@.len() == 7);
    reveal_with_fuel(lookup, 4);
    law_small_integers_are_exact(Width::Double, n as nat);
    let b = nearest(Width::Double, n as nat, 1);
    assert(negative_value(n) == Value::Num((b + 0x8000_0000_0000_0000) as u64));
}

/// The codes of JSON-RPC say what is wrong with a request: `-32601` where the
/// method or the tool is unknown, and `-32602` where a tool that needs a unit is
/// called without one.
pub proof fn law_error_codes<T: UnitTransport, R: Recorder>(
    before: Fleet<T, R>,
    after: Fleet<T, R>,
    req: Value,
    now_ns: u64,
    reply: Value,
)
    requires
        handles(before, after, req, now_ns, reply),
    ensures
        ({
            let method = text_or_empty(req, "method"@);
            method != "initialize"@ && method != "tools/list"@ && method != "tools/call"@
                ==> fails_with(reply, 32601)
        }),
        tool_called(req) matches Some(tool) ==> {
            let args = field_or_null(field_or_null(req, "params"@), "arguments"@);
            &&& tool != "list_units"@ && tool != "assign_unit"@ && tool != "engage_autonomy"@
                && tool != "take_manual_control"@ ==> fails_with(reply, 32601)
            &&& (tool == "engage_autonomy"@ || tool == "take_manual_control"@) && uint_field(
                args,
                "unit_id"@,
            ) is None ==> fails_with(reply, 32602)
            &&& tool == "assign_unit"@ && (uint_field(args, "unit_id"@) is None || text_field(
                args,
                "operator"@,
            ) is None) ==> fails_with(reply, 32602)
        },
{
    lemma_keys();
    lemma_tools();
    let method = text_or_empty(req, "method"@);
    let id = field_or_null(req, "id"@);
    lemma_fails_with(id, 32601, "method not found: "@ + method);
    if let Some(tool) = tool_called(req) {
        lemma_fails_with(id, 32601, "unknown tool: "@ + tool);
        lemma_fails_with(id, 32602, "missing unit_id"@);
        lemma_fails_with(id, 32602, "missing unit_id/operator"@);
    }
}

proof fn lemma_tools()
    ensures
        "engage_autonomy"@ != "list_units"@,
        "engage_autonomy"@ != "assign_unit"@,
        "take_manual_control"@ != "list_units"@,
        "take_manual_control"@ != "assign_unit"@,
        "assign_unit"@ != "list_units"@,
{
    reveal_strlit("engage_autonomy");
    reveal_strlit("take_manual_control");
    reveal_strlit("list_units");
    reveal_strlit("assign_unit");
    assert("engage_autonomy"@.len() == 15 && "take_manual_control"@.len() == 19);
    assert("list_units"@.len() == 10 && "assign_unit"@.len() == 11);
}

// --- What the server says of itself ------------------------------------------------------

/// `v` describes a tool of that name, which needs the given properties.
pub open spec fn describes_tool(v: Value, name: Seq<char>, needs: Seq<Seq<char>>) -> bool {
    &&& v.field("name"@) == Some(Value::Str(name))
    &&& v.field("inputSchema"@) matches Some(schema)
    &&& schema.field("required"@) matches Some(Value::Arr(required))
    &&& required.len() == needs.len()
    &&& forall|i: int|
        0 <= i < needs.len() ==> #[trigger] required[i] == Value::Str(needs[i])
}

proof fn lemma_tool_value(name: Seq<char>, desc: Seq<char>, props: Seq<(Seq<char>, Seq<char>)>)
    ensures
        describes_tool(
            tool_value(name, desc, props),
            name,
            props.map_values(|p: (Seq<char>, Seq<char>)| p.0),
        ),
{
    reveal_strlit("name");
    reveal_strlit("description");
    reveal_strlit("inputSchema");
    reveal_strlit("type");
    reveal_strlit("properties");
    reveal_strlit("required");
    assert("name"@.len() == 4 && "description"@.len() == 11 && "inputSchema"@.len() == 11);
    assert("description"@[0] == 'd' && "inputSchema"@[0] == 'i');
    assert("type"@.len() == 4 && "properties"@.len() == 10 && "required"@.len() == 8);
    reveal_with_fuel(lookup, 4);
}

/// `tools/list` is answered with the four tools by name, each with what it needs:
/// `assign_unit` a unit and an operator, `engage_autonomy` and
/// `take_manual_control` a unit, and `list_units` nothing.
pub proof fn law_tools_are_listed<T: UnitTransport, R: Recorder>(
    before: Fleet<T, R>,
    after: Fleet<T, R>,
    req: Value,
    now_ns: u64,
    reply: Value,
)
    requires
        handles(before, after, req, now_ns, reply),
        req.field("method"@) == Some(Value::Str("tools/list"@)),
    ensures
        after.same(&before),
        reply.field("result"@) matches Some(v) && v.field("tools"@) matches Some(Value::Arr(all))
            && {
            &&& all.len() == 4
            &&& describes_tool(all[0], "list_units"@, Seq::empty())
            &&& describes_tool(all[1], "assign_unit"@, seq!["unit_id"@, "operator"@])
            &&& describes_tool(all[2], "engage_autonomy"@, seq!["unit_id"@])
            &&& describes_tool(all[3], "take_manual_control"@, seq!["unit_id"@])
        },
{
    lemma_keys();
    reveal_strlit("tools/list");
    reveal_strlit("initialize");
    assert("tools/list"@[0] == 't' && "initialize"@[0] == 'i');
    let id = field_or_null(req, "id"@);
    lemma_result(id, tools_value());
    reveal_with_fuel(lookup, 2);
    let one = seq![("unit_id"@, "integer"@)];
    let two = seq![("unit_id"@, "integer"@), ("operator"@, "string"@)];
    let none = Seq::<(Seq<char>, Seq<char>)>::empty();
    let pick = |p: (Seq<char>, Seq<char>)| p.0;
    assert(one.map_values(pick) =~= seq!["unit_id"@]);
    assert(two.map_values(pick) =~= seq!["unit_id"@, "operator"@]);
    assert(none.map_values(pick) =~= Seq::<Seq<char>>::empty());
    lemma_tool_value(
        "list_units"@,
        "List every unit registered with the fleet, with mode and status."@,
        none,
    );
    lemma_tool_value("assign_unit"@, "Assign a human or AI operator to a unit."@, two);
    lemma_tool_value(
        "engage_autonomy"@,
        "Command a unit into AUTO mode (autonomy drives; operator supervises)."@,
        one,
    );
    lemma_tool_value(
        "take_manual_control"@,
        "Command a unit into FULL-TELEOP mode (operator drives directly)."@,
        one,
    );
}

/// `GET /api/health` is answered `200` with the status `ok` and the number of
/// units.
pub proof fn law_health_counts_the_units<T: UnitTransport, R: Recorder>(
    before: Fleet<T, R>,
    after: Fleet<T, R>,
    gated: bool,
    has_identity: bool,
    verdict: Verdict,
    req: RequestView,
    now_ns: u64,
    action: ActionView,
)
    requires
        answers(before, after, gated, has_identity, verdict, req, now_ns, action),
        req.path == "/api/health"@,
    ensures
        after.same(&before),
        action == ActionView::Reply(json_response(200, health_value(before.units().len()))),
        health_value(before.units().len()).field("status"@) == Some(Value::Str("ok"@)),
        health_value(before.units().len()).field("units"@) == Some(
            uint_value(before.units().len() as u64),
        ),
{
    reveal_strlit("/api/health");
    reveal_strlit("/mcp");
    assert("/api/health"@.len() == 11 && "/mcp"@.len() == 4);
    reveal_strlit("status");
    reveal_strlit("version");
    reveal_strlit("units");
    assert("status"@.len() == 6 && "version"@.len() == 7 && "units"@.len() == 5);
    reveal_with_fuel(lookup, 4);
}

/// A unit that the fleet does not have is answered `404` where it is read, `409`
/// where it was to be changed, and the fleet stays as it is. An action that there
/// is not is answered `405`, and a command that names no mode `400`.
pub proof fn law_requests_that_cannot_be_met<T: UnitTransport, R: Recorder>(
    before: Fleet<T, R>,
    after: Fleet<T, R>,
    has_identity: bool,
    verdict: Verdict,
    req: RequestView,
    id: u64,
    name: Seq<char>,
    now_ns: u64,
    action: ActionView,
)
    requires
        answers(before, after, false, has_identity, verdict, req, now_ns, action),
        name.len() > 0,
        !name.contains('/'),
    ensures
        req.method is Get && req.path == "/api/units/"@ + decimal(id as nat) && (forall|i: int|
            0 <= i < before.units().len() ==> (#[trigger] before.units()[i]).id != id) ==> (
        action matches ActionView::Reply(r) && r.status == 404 && after.same(&before)),
        req.method is Post && req.path == unit_path(id, name) && (name == "engage_autonomy"@ || name
            == "take_manual_control"@) && (forall|i: int|
            0 <= i < before.units().len() ==> (#[trigger] before.units()[i]).id != id) ==> (
        action matches ActionView::Reply(r) && r.status == 409 && after.same(&before)),
        req.method is Post && req.path == unit_path(id, name) && name != "engage_autonomy"@ && name
            != "take_manual_control"@ && name != "assign"@ && name != "command"@
            && !"/secure/handshake"@.is_suffix_of(req.path) ==> (action matches ActionView::Reply(
            r,
        ) && r.status == 405 && after.same(&before)),
        req.method is Post && req.path == unit_path(id, "command"@) && body_value(req.body).field(
            "mode"@,
        ) is None ==> (action matches ActionView::Reply(r) && r.status == 400 && after.same(
            &before,
        )),
{
    lemma_fixed_paths();
    lemma_action_path(id, "command"@);
    lemma_no_mode();
    law_paths_name_unit_and_action(id, name);
    lemma_unit_at(before.units(), id);
    lemma_action_names();
    if req.method is Post && req.path == unit_path(id, name) && (name == "engage_autonomy"@ || name
        == "take_manual_control"@) {
        lemma_action_path(id, name);
        let resp = action->Reply_0;
        let target = if name == "engage_autonomy"@ {
            Mode::Auto
        } else {
            Mode::FullTeleop
        };
        let done = unit_value(id, "ok"@, Value::Bool(true));
        assert(answers_mode(before, after, id, target, now_ns, done, resp));
    }
}

/// No mode has an empty name.
proof fn lemma_no_mode()
    ensures
        mode_named(Seq::empty()) is None,
{
    reveal_strlit("auto");
    reveal_strlit("assist");
    reveal_strlit("teleop");
    reveal_strlit("fullteleop");
    reveal_strlit("full_teleop");
    reveal_strlit("estop");
    reveal_strlit("emergency");
    reveal_strlit("emergencystop");
    assert(lower_ascii(Seq::empty()).len() == 0);
}

proof fn lemma_action_names()
    ensures
        "engage_autonomy"@ != "assign"@,
        "engage_autonomy"@ != "command"@,
        "engage_autonomy"@ != "take_manual_control"@,
        "take_manual_control"@ != "assign"@,
        "take_manual_control"@ != "command"@,
        "command"@ != "assign"@,
{
    reveal_strlit("engage_autonomy");
    reveal_strlit("take_manual_control");
    reveal_strlit("assign");
    reveal_strlit("command");
    assert("engage_autonomy"@.len() == 15 && "take_manual_control"@.len() == 19);
    assert("assign"@.len() == 6 && "command"@.len() == 7);
}

/// An established handshake is answered `200`, a rejected one `403`, and one that
/// cannot be read `400`; without an identity of its own the server answers `501`.
pub proof fn law_handshake_statuses(r: HandshakeResult, unit: u64, body: Seq<u8>)
    ensures
        handshake_answer(r).status == (match r {
            HandshakeResult::Established { .. } => 200u16,
            HandshakeResult::Rejected(_) => 403,
            HandshakeResult::BadAttestation => 400,
        }),
        handshake_action(false, unit, body) matches ActionView::Reply(a) && a.status == 501,
        match handshake_action(true, unit, body) {
            ActionView::Reply(a) => a.status == 400 && opening_in(body_value(body)) is None,
            ActionView::Handshake { unit: u, attestation, suites } => u == unit && opening_in(
                body_value(body),
            ) == Some((attestation, suites)),
        },
{
}

// --- What was done -----------------------------------------------------------------------

/// What a tool did is told with the unit it was done to: its id, the tool and that
/// it went well, or whom it was assigned to.
pub proof fn law_results_name_the_unit(unit: u64, tool: Seq<char>)
    ensures
        driven_value(unit, tool).field("unit_id"@) == Some(uint_value(unit)),
        driven_value(unit, tool).field("tool"@) == Some(Value::Str(tool)),
        driven_value(unit, tool).field("ok"@) == Some(Value::Bool(true)),
        assigned_value(unit).field("unit_id"@) == Some(uint_value(unit)),
        assigned_value(unit).field("assigned"@) == Some(Value::Str(decimal(unit as nat))),
{
    reveal_strlit("unit_id");
    reveal_strlit("tool");
    reveal_strlit("ok");
    reveal_strlit("assigned");
    assert("unit_id"@.len() == 7 && "tool"@.len() == 4 && "ok"@.len() == 2 && "assigned"@.len()
        == 8);
    reveal_with_fuel(lookup, 4);
}

/// The answer to an action of the dashboard names the unit, and says `ok`, whether
/// it was assigned, or the mode it was told to be in.
pub proof fn law_answers_name_the_unit(unit: u64, key: Seq<char>, v: Value)
    requires
        key != "unit_id"@,
    ensures
        unit_value(unit, key, v).field("unit_id"@) == Some(uint_value(unit)),
        unit_value(unit, key, v).field(key) == Some(v),
{
    reveal_with_fuel(lookup, 3);
}

} // verus!
