//! What a request does to the fleet, from the text of the request to the mode of
//! the unit.
use vstd::prelude::*;
use crate::cloud::auth::{attestation_in, Principal, Verdict};
use crate::cloud::dispatch::{
    action_in, answers, answers_assign, answers_mode, body_value, change_answer, lemma_fixed_paths,
    refusal, unit_id_in, unit_value, ActionView,
};
use crate::cloud::error::{error_text, transport_failure, CloudErrorView};
use crate::cloud::fleet::{
    assigns, commanded, drives, is_command, law_default_policy_reaches_all,
    law_mode_change_reaches_target, lemma_unit_at, mode_change, mode_named, seq_after, staged_path,
    unit_at, CapturingTransport, Fleet, UnitTransport,
};
use crate::cloud::http::{RequestView, ResponseView};
use crate::cloud::json::{as_uint, lookup, Value};
use crate::cloud::mcp::{
    assigned_value, call_assigns, call_drives, call_reply, calls, driven_value, error_reply,
    field_or_null, handles, ok_reply, uint_field,
};
use crate::cloud::recorder::Recorder;
use crate::num::decimal::lemma_decimal_digits;
use crate::runtime::mode::{default_edge, mode_name, Mode, TransitionTable};
use crate::runtime::wire::ControlCommand;
use crate::text::{
    after_plus, decimal, is_digit, lemma_first_at, lemma_first_at_is, lower_ascii, segments, text_opt,
};

verus! {

/// `req` is a `tools/call` request for the tool `name` with the arguments `args`.
pub open spec fn calls_tool(req: Value, name: Seq<char>, args: Value) -> bool {
    &&& req.field("method"@) == Some(Value::Str("tools/call"@))
    &&& req.field("params"@) matches Some(params)
    &&& params.field("name"@) == Some(Value::Str(name))
    &&& params.field("arguments"@) == Some(args)
}

/// `args` names the unit `id`.
pub open spec fn names_unit(args: Value, id: u64) -> bool {
    args.field("unit_id"@) matches Some(v) && as_uint(v) == Some(id)
}

/// The fleet has the default policy.
pub open spec fn default_policy<T: UnitTransport, R: Recorder>(fleet: Fleet<T, R>) -> bool {
    forall|a: Mode, b: Mode| #[trigger] fleet.policy().edge(a, b) == default_edge(a, b)
}

/// Of the units of `before` only the one at `i` can differ in `after`.
pub open spec fn others_stay<T: UnitTransport, R: Recorder>(
    before: Fleet<T, R>,
    after: Fleet<T, R>,
    i: int,
) -> bool {
    &&& after.units().len() == before.units().len()
    &&& forall|j: int|
        0 <= j < before.units().len() && j != i ==> #[trigger] after.units()[j]
            == before.units()[j]
}

/// A reply with a result is not one with an error.
proof fn lemma_reply_kinds(id: Value, result: Value, code: u64, message: Seq<char>)
    ensures
        ok_reply(id, result).field("result"@) == Some(result),
        error_reply(id, code, message).field("result"@) is None,
{
    reveal_strlit("jsonrpc");
    reveal_strlit("id");
    reveal_strlit("result");
    reveal_strlit("error");
    assert("jsonrpc"@.len() == 7 && "id"@.len() == 2 && "result"@.len() == 6 && "error"@.len() == 5);
    reveal_with_fuel(lookup, 5);
    let f = ok_reply(id, result)->Obj_0;
    let g = error_reply(id, code, message)->Obj_0;
    assert(f.drop_first().drop_first().drop_first().len() == 0);
    assert(g.drop_first().drop_first().drop_first().len() == 0);
}

/// The names of methods and tools tell them apart.
proof fn lemma_names_differ()
    ensures
        "tools/call"@ != "initialize"@,
        "tools/call"@ != "tools/list"@,
        "engage_autonomy"@ != "list_units"@,
        "engage_autonomy"@ != "assign_unit"@,
        "engage_autonomy"@ != "take_manual_control"@,
        "take_manual_control"@ != "list_units"@,
        "take_manual_control"@ != "assign_unit"@,
        "assign_unit"@ != "list_units"@,
        "assign"@ != "command"@,
        "assign"@ != "engage_autonomy"@,
        "assign"@ != "take_manual_control"@,
        "command"@ != "engage_autonomy"@,
        "command"@ != "take_manual_control"@,
{
    reveal_strlit("tools/call");
    reveal_strlit("initialize");
    reveal_strlit("tools/list");
    reveal_strlit("engage_autonomy");
    reveal_strlit("take_manual_control");
    reveal_strlit("list_units");
    reveal_strlit("assign_unit");
    reveal_strlit("assign");
    reveal_strlit("command");
    assert("initialize"@[0] == 'i' && "tools/list"@[6] == 'l' && "tools/call"@[6] == 'c');
    assert("engage_autonomy"@.len() == 15 && "take_manual_control"@.len() == 19);
    assert("list_units"@.len() == 10 && "assign_unit"@.len() == 11);
    assert("assign"@.len() == 6 && "command"@.len() == 7);
}

/// In a sound fleet the unit at `i` is the one that its id stands for.
pub proof fn lemma_unit_is_at<T: UnitTransport, R: Recorder>(fleet: Fleet<T, R>, i: int)
    requires
        fleet.wf(),
        0 <= i < fleet.units().len(),
    ensures
        unit_at(fleet.units(), fleet.units()[i].id) == Some(i),
{
    let id = fleet.units()[i].id;
    lemma_unit_at(fleet.units(), id);
    let k = unit_at(fleet.units(), id)->0;
    fleet.lemma_units(i, k);
}

/// A mode change that went through has the unit in the target mode, and one
/// that did not leaves it where it was or in Assist.
proof fn lemma_changed<T: UnitTransport, R: Recorder>(
    before: Fleet<T, R>,
    after: Fleet<T, R>,
    i: int,
    target: Mode,
    now_ns: u64,
    r: Result<(), CloudErrorView>,
)
    requires
        before.wf(),
        default_policy(before),
        0 <= i < before.units().len(),
        mode_change(before, after, before.units()[i].id, target, now_ns, r),
    ensures
        others_stay(before, after, i),
        r is Ok ==> after.units()[i].mode == target,
        r is Err ==> after.units()[i].mode == before.units()[i].mode || after.units()[i].mode
            == Mode::Assist,
        after.units()[i].id == before.units()[i].id,
        after.units()[i].assigned_operator == before.units()[i].assigned_operator,
{
    let id = before.units()[i].id;
    lemma_unit_is_at(before, i);
    law_mode_change_reaches_target(before, after, id, target, now_ns, r);
}

/// In a fleet with the default policy, a call of `take_manual_control` for a unit
/// that is answered with a result leaves that unit in FULL-TELEOP mode, and one
/// of `engage_autonomy` leaves it in AUTO mode. One that is answered with an
/// error leaves it in neither unless it was there before. No other unit changes.
pub proof fn law_tools_set_the_mode<T: UnitTransport, R: Recorder>(
    before: Fleet<T, R>,
    after: Fleet<T, R>,
    req: Value,
    args: Value,
    i: int,
    now_ns: u64,
    reply: Value,
)
    requires
        before.wf(),
        default_policy(before),
        handles(before, after, req, now_ns, reply),
        0 <= i < before.units().len(),
        names_unit(args, before.units()[i].id),
    ensures
        calls_tool(req, "take_manual_control"@, args) ==> {
            &&& others_stay(before, after, i)
            &&& reply.field("result"@) is Some ==> after.units()[i].mode == Mode::FullTeleop
            &&& reply.field("result"@) is None ==> after.units()[i].mode == before.units()[i].mode
                || after.units()[i].mode == Mode::Assist
        },
        calls_tool(req, "engage_autonomy"@, args) ==> {
            &&& others_stay(before, after, i)
            &&& reply.field("result"@) is Some ==> after.units()[i].mode == Mode::Auto
            &&& reply.field("result"@) is None ==> after.units()[i].mode == before.units()[i].mode
                || after.units()[i].mode == Mode::Assist
        },
{
    lemma_names_differ();
    let u = before.units()[i].id;
    let id = field_or_null(req, "id"@);
    if calls_tool(req, "take_manual_control"@, args) {
        let name = "take_manual_control"@;
        assert(calls(before, after, name, args, id, now_ns, reply));
        assert(call_drives(before, after, u, Mode::FullTeleop, name, id, now_ns, reply));
        lemma_driven(before, after, i, Mode::FullTeleop, name, id, now_ns, reply);
    }
    if calls_tool(req, "engage_autonomy"@, args) {
        let name = "engage_autonomy"@;
        assert(calls(before, after, name, args, id, now_ns, reply));
        assert(call_drives(before, after, u, Mode::Auto, name, id, now_ns, reply));
        lemma_driven(before, after, i, Mode::Auto, name, id, now_ns, reply);
    }
}

proof fn lemma_driven<T: UnitTransport, R: Recorder>(
    before: Fleet<T, R>,
    after: Fleet<T, R>,
    i: int,
    target: Mode,
    name: Seq<char>,
    id: Value,
    now_ns: u64,
    reply: Value,
)
    requires
        before.wf(),
        default_policy(before),
        0 <= i < before.units().len(),
        call_drives(before, after, before.units()[i].id, target, name, id, now_ns, reply),
    ensures
        others_stay(before, after, i),
        reply.field("result"@) is Some ==> after.units()[i].mode == target,
        reply.field("result"@) is None ==> after.units()[i].mode == before.units()[i].mode
            || after.units()[i].mode == Mode::Assist,
{
    let u = before.units()[i].id;
    let done = driven_value(u, name);
    let r = choose|r: Result<(), CloudErrorView>| #[trigger]
        mode_change(before, after, u, target, now_ns, r) && reply == call_reply(id, done, r);
    lemma_changed(before, after, i, target, now_ns, r);
    match r {
        Ok(_) => lemma_reply_kinds(id, done, 0, Seq::empty()),
        Err(e) => lemma_reply_kinds(id, done, 32000, error_text(e)),
    }
}

/// A call of `assign_unit` for a unit of the fleet is answered with a result, and
/// leaves the unit assigned to the operator that the call names and in the mode
/// it was in. No other unit changes, and no command is sent.
pub proof fn law_assign_tool_assigns<T: UnitTransport, R: Recorder>(
    before: Fleet<T, R>,
    after: Fleet<T, R>,
    req: Value,
    args: Value,
    i: int,
    operator: Seq<char>,
    now_ns: u64,
    reply: Value,
)
    requires
        before.wf(),
        handles(before, after, req, now_ns, reply),
        calls_tool(req, "assign_unit"@, args),
        0 <= i < before.units().len(),
        names_unit(args, before.units()[i].id),
        args.field("operator"@) == Some(Value::Str(operator)),
    ensures
        reply.field("result"@) is Some,
        others_stay(before, after, i),
        after.transport() == before.transport(),
        text_opt(after.units()[i].assigned_operator) == Some(operator),
        after.units()[i].mode == before.units()[i].mode,
{
    lemma_names_differ();
    let u = before.units()[i].id;
    let id = field_or_null(req, "id"@);
    assert(calls(before, after, "assign_unit"@, args, id, now_ns, reply));
    assert(call_assigns(before, after, u, operator, id, reply));
    let done = assigned_value(u);
    let r = choose|r: Result<(), CloudErrorView>| #[trigger]
        assigns(before, after, u, operator, r) && reply == call_reply(id, done, r);
    lemma_unit_is_at(before, i);
    lemma_reply_kinds(id, done, 0, Seq::empty());
}

/// A call of one of the tools that change a unit, for an id that no unit has or
/// without one, is answered without a result and leaves the fleet as it is.
pub proof fn law_tools_need_a_unit<T: UnitTransport, R: Recorder>(
    before: Fleet<T, R>,
    after: Fleet<T, R>,
    req: Value,
    name: Seq<char>,
    args: Value,
    now_ns: u64,
    reply: Value,
)
    requires
        handles(before, after, req, now_ns, reply),
        calls_tool(req, name, args),
        name == "assign_unit"@ || name == "engage_autonomy"@ || name == "take_manual_control"@,
        forall|i: int|
            0 <= i < before.units().len() ==> !names_unit(args, (#[trigger] before.units()[i]).id),
    ensures
        reply.field("result"@) is None,
        after.same(&before),
{
    lemma_names_differ();
    let id = field_or_null(req, "id"@);
    assert(calls(before, after, name, args, id, now_ns, reply));
    lemma_reply_kinds(id, Value::Null, 32602, "missing unit_id"@);
    lemma_reply_kinds(id, Value::Null, 32602, "missing unit_id/operator"@);
    if let Some(u) = uint_field(args, "unit_id"@) {
        lemma_unit_at(before.units(), u);
        if let Some(k) = unit_at(before.units(), u) {
            assert(names_unit(args, before.units()[k].id));
        }
        let none = CloudErrorView::NotFound(u);
        lemma_reply_kinds(id, Value::Null, 32000, error_text(none));
    }
}

// --- Paths of the dashboard --------------------------------------------------------

/// The path of an action of a unit.
pub open spec fn unit_path(id: u64, action: Seq<char>) -> Seq<char> {
    "/api/units/"@ + decimal(id as nat) + "/"@ + action
}

proof fn lemma_segments_one(s: Seq<char>)
    requires
        s.len() > 0,
        forall|j: int| 0 <= j < s.len() ==> #[trigger] s[j] != '/',
    ensures
        segments(s, '/') == seq![s],
{
    lemma_first_at(s, '/');
}

proof fn lemma_segments_more(a: Seq<char>, rest: Seq<char>)
    requires
        a.len() > 0,
        forall|j: int| 0 <= j < a.len() ==> #[trigger] a[j] != '/',
    ensures
        segments(a + seq!['/'] + rest, '/') == seq![a] + segments(rest, '/'),
{
    let s = a + seq!['/'] + rest;
    lemma_first_at_is(s, '/', a.len() as int);
    assert(s.take(a.len() as int) =~= a);
    assert(s.skip(a.len() as int + 1) =~= rest);
}

/// A path `/api/units/<id>/<action>` names that unit and that action, whatever
/// the id and the action.
pub proof fn law_paths_name_unit_and_action(id: u64, action: Seq<char>)
    requires
        action.len() > 0,
        !action.contains('/'),
    ensures
        unit_id_in(unit_path(id, action)) == Some(id),
        action_in(unit_path(id, action)) == Some(action),
        unit_id_in("/api/units/"@ + decimal(id as nat)) == Some(id),
        action_in("/api/units/"@ + decimal(id as nat)) is None,
{
    reveal_strlit("/api/units/");
    reveal_strlit("api");
    reveal_strlit("units");
    reveal_strlit("/");
    let d = decimal(id as nat);
    lemma_decimal_digits(id as nat);
    assert forall|j: int| 0 <= j < d.len() implies #[trigger] d[j] != '/' by {
        assert(is_digit(d[j]));
    }
    assert(after_plus(d) == d) by {
        assert(is_digit(d[0]));
    }
    assert forall|j: int| 0 <= j < action.len() implies #[trigger] action[j] != '/' by {
        assert(action.contains(action[j]));
    }
    let tail = d + seq!['/'] + action;
    let p = unit_path(id, action);
    assert(p =~= seq!['/'] + ("api"@ + seq!['/'] + ("units"@ + seq!['/'] + tail)));
    lemma_first_at_is(p, '/', 0);
    assert(p.skip(1) =~= "api"@ + seq!['/'] + ("units"@ + seq!['/'] + tail));
    lemma_segments_more("api"@, "units"@ + seq!['/'] + tail);
    lemma_segments_more("units"@, tail);
    lemma_segments_more(d, action);
    lemma_segments_one(action);
    assert(segments(p, '/') =~= seq!["api"@, "units"@, d, action]);
    let q = "/api/units/"@ + d;
    lemma_first_at_is(q, '/', 0);
    assert(q.skip(1) =~= "api"@ + seq!['/'] + ("units"@ + seq!['/'] + d));
    lemma_segments_more("api"@, "units"@ + seq!['/'] + d);
    lemma_segments_more("units"@, d);
    lemma_segments_one(d);
    assert(segments(q, '/') =~= seq!["api"@, "units"@, d]);
}

pub proof fn lemma_action_path(id: u64, action: Seq<char>)
    requires
        action == "assign"@ || action == "command"@ || action == "engage_autonomy"@ || action
            == "take_manual_control"@,
    ensures
        unit_id_in(unit_path(id, action)) == Some(id),
        action_in(unit_path(id, action)) == Some(action),
        !"/secure/handshake"@.is_suffix_of(unit_path(id, action)),
{
    reveal_strlit("assign");
    reveal_strlit("command");
    reveal_strlit("engage_autonomy");
    reveal_strlit("take_manual_control");
    reveal_strlit("/secure/handshake");
    assert(!action.contains('/'));
    law_paths_name_unit_and_action(id, action);
    let p = unit_path(id, action);
    assert(p.last() == action.last());
    assert(action.last() != 'e');
    let h = "/secure/handshake"@;
    assert(h.last() == 'e');
    if h.is_suffix_of(p) {
        assert(p.subrange(p.len() - h.len(), p.len() as int).last() == p.last());
    }
}

/// In a fleet with the default policy, posting `take_manual_control` to a unit
/// that is answered `200` leaves that unit in FULL-TELEOP mode, and posting
/// `engage_autonomy` in AUTO mode. Any other answer leaves the unit where it was
/// or in Assist. No other unit changes.
pub proof fn law_posted_actions_set_the_mode<T: UnitTransport, R: Recorder>(
    before: Fleet<T, R>,
    after: Fleet<T, R>,
    gated: bool,
    has_identity: bool,
    verdict: Verdict,
    req: RequestView,
    i: int,
    now_ns: u64,
    action: ActionView,
)
    requires
        before.wf(),
        default_policy(before),
        answers(before, after, gated, has_identity, verdict, req, now_ns, action),
        req.method is Post,
        0 <= i < before.units().len(),
        req.path == unit_path(before.units()[i].id, "take_manual_control"@) || req.path
            == unit_path(before.units()[i].id, "engage_autonomy"@),
    ensures
        others_stay(before, after, i),
        action matches ActionView::Reply(resp) && {
            &&& resp.status == 200 && req.path == unit_path(
                before.units()[i].id,
                "take_manual_control"@,
            ) ==> after.units()[i].mode == Mode::FullTeleop
            &&& resp.status == 200 && req.path == unit_path(
                before.units()[i].id,
                "engage_autonomy"@,
            ) ==> after.units()[i].mode == Mode::Auto
            &&& resp.status != 200 ==> after.units()[i].mode == before.units()[i].mode
                || after.units()[i].mode == Mode::Assist
        },
{
    lemma_names_differ();
    lemma_fixed_paths();
    let u = before.units()[i].id;
    lemma_action_path(u, "take_manual_control"@);
    lemma_action_path(u, "engage_autonomy"@);
    let resp = action->Reply_0;
    let name = action_in(req.path)->0;
    let target = if name == "engage_autonomy"@ {
        Mode::Auto
    } else {
        Mode::FullTeleop
    };
    if refusal(gated, verdict, req, name) is None {
        let done = unit_value(u, "ok"@, Value::Bool(true));
        assert(answers_mode(before, after, u, target, now_ns, done, resp));
        lemma_answered(before, after, i, target, now_ns, done, resp);
    }
}

proof fn lemma_answered<T: UnitTransport, R: Recorder>(
    before: Fleet<T, R>,
    after: Fleet<T, R>,
    i: int,
    target: Mode,
    now_ns: u64,
    done: Value,
    resp: ResponseView,
)
    requires
        before.wf(),
        default_policy(before),
        0 <= i < before.units().len(),
        answers_mode(before, after, before.units()[i].id, target, now_ns, done, resp),
    ensures
        others_stay(before, after, i),
        resp.status == 200 ==> after.units()[i].mode == target,
        resp.status != 200 ==> after.units()[i].mode == before.units()[i].mode
            || after.units()[i].mode == Mode::Assist,
{
    let u = before.units()[i].id;
    let r = choose|r: Result<(), CloudErrorView>| #[trigger]
        mode_change(before, after, u, target, now_ns, r) && resp == change_answer(done, r);
    lemma_changed(before, after, i, target, now_ns, r);
}

/// In a fleet with the default policy, posting `command` to a unit with the name
/// of a mode in the body that is answered `200` leaves that unit in the mode of
/// that name, in whatever letter case it is written. Any other answer leaves the
/// unit where it was or in Assist.
pub proof fn law_posted_command_sets_the_mode<T: UnitTransport, R: Recorder>(
    before: Fleet<T, R>,
    after: Fleet<T, R>,
    gated: bool,
    has_identity: bool,
    verdict: Verdict,
    req: RequestView,
    i: int,
    name: Seq<char>,
    now_ns: u64,
    action: ActionView,
)
    requires
        before.wf(),
        default_policy(before),
        answers(before, after, gated, has_identity, verdict, req, now_ns, action),
        req.method is Post,
        0 <= i < before.units().len(),
        req.path == unit_path(before.units()[i].id, "command"@),
        body_value(req.body).field("mode"@) == Some(Value::Str(name)),
    ensures
        others_stay(before, after, i),
        action matches ActionView::Reply(resp) && {
            let mode = after.units()[i].mode;
            &&& resp.status == 200 && lower_ascii(name) == "auto"@ ==> mode == Mode::Auto
            &&& resp.status == 200 && lower_ascii(name) == "assist"@ ==> mode == Mode::Assist
            &&& resp.status == 200 && lower_ascii(name) == "teleop"@ ==> mode == Mode::FullTeleop
            &&& resp.status == 200 && lower_ascii(name) == "estop"@ ==> mode == Mode::EmergencyStop
            &&& resp.status != 200 ==> mode == before.units()[i].mode || mode == Mode::Assist
        },
{
    lemma_names_differ();
    lemma_fixed_paths();
    let u = before.units()[i].id;
    lemma_action_path(u, "command"@);
    let resp = action->Reply_0;
    if refusal(gated, verdict, req, "send_control"@) is None {
        lemma_mode_words();
        if let Some(target) = mode_named(name) {
            let done = unit_value(u, "mode"@, Value::Str(mode_name(target)));
            assert(answers_mode(before, after, u, target, now_ns, done, resp));
            lemma_answered(before, after, i, target, now_ns, done, resp);
        }
    }
}

proof fn lemma_mode_words()
    ensures
        "auto"@ != "assist"@,
        "auto"@ != "teleop"@,
        "auto"@ != "fullteleop"@,
        "auto"@ != "full_teleop"@,
        "auto"@ != "estop"@,
        "assist"@ != "teleop"@,
        "assist"@ != "estop"@,
        "teleop"@ != "estop"@,
        "assist"@ != "fullteleop"@,
        "assist"@ != "full_teleop"@,
        "estop"@ != "fullteleop"@,
        "estop"@ != "full_teleop"@,
{
    reveal_strlit("auto");
    reveal_strlit("assist");
    reveal_strlit("teleop");
    reveal_strlit("fullteleop");
    reveal_strlit("full_teleop");
    reveal_strlit("estop");
    assert("auto"@.len() == 4 && "assist"@.len() == 6 && "teleop"@.len() == 6);
    assert("fullteleop"@.len() == 10 && "full_teleop"@.len() == 11 && "estop"@.len() == 5);
    assert("assist"@[0] == 'a' && "teleop"@[0] == 't');
}

/// Posting `assign` to a unit that is answered `200` leaves the unit assigned to
/// the operator in the body and in the mode it was in; any other answer leaves
/// the fleet as it is.
pub proof fn law_posted_assign_assigns<T: UnitTransport, R: Recorder>(
    before: Fleet<T, R>,
    after: Fleet<T, R>,
    gated: bool,
    has_identity: bool,
    verdict: Verdict,
    req: RequestView,
    i: int,
    operator: Seq<char>,
    now_ns: u64,
    action: ActionView,
)
    requires
        before.wf(),
        answers(before, after, gated, has_identity, verdict, req, now_ns, action),
        req.method is Post,
        0 <= i < before.units().len(),
        req.path == unit_path(before.units()[i].id, "assign"@),
        body_value(req.body).field("operator"@) == Some(Value::Str(operator)),
    ensures
        others_stay(before, after, i),
        after.units()[i].mode == before.units()[i].mode,
        action matches ActionView::Reply(resp) && {
            &&& !gated ==> resp.status == 200
            &&& resp.status == 200 ==> text_opt(after.units()[i].assigned_operator) == Some(
                operator,
            )
            &&& resp.status != 200 ==> after.same(&before)
        },
{
    lemma_names_differ();
    lemma_fixed_paths();
    let u = before.units()[i].id;
    lemma_action_path(u, "assign"@);
    let resp = action->Reply_0;
    if refusal(gated, verdict, req, "assign_unit"@) is None {
        assert(answers_assign(before, after, u, operator, resp));
        let done = unit_value(u, "assigned"@, Value::Bool(true));
        let r = choose|r: Result<(), CloudErrorView>| #[trigger]
            assigns(before, after, u, operator, r) && resp == change_answer(done, r);
        lemma_unit_is_at(before, i);
    }
}

// --- What is sent ----------------------------------------------------------------------

/// The number that a command carries for a mode on the wire.
pub open spec fn on_the_wire(mode: Mode, number: u8) -> bool {
    &&& mode == Mode::Auto ==> number == 0
    &&& mode == Mode::Assist ==> number == 1
    &&& mode == Mode::FullTeleop ==> number == 2
    &&& mode == Mode::EmergencyStop ==> number == 3
}

/// A transport that keeps what it sends shows, for a unit that is driven along a
/// path, one command per step to the address of the unit, each with the number of
/// the step's mode, the next sequence number, the time, and all axes at rest.
pub proof fn law_steps_are_sent(
    t0: CapturingTransport,
    t1: CapturingTransport,
    addr: Seq<char>,
    path: Seq<Mode>,
    m0: Mode,
    n0: u64,
    now_ns: u64,
    m1: Mode,
    n1: u64,
    r: Result<(), Seq<char>>,
)
    requires
        drives(t0, t1, addr, path, m0, n0, now_ns, m1, n1, r),
    ensures
        r is Ok,
        t1@.len() == t0@.len() + path.len(),
        forall|k: int| 0 <= k < t0@.len() ==> #[trigger] t1@[k] == t0@[k],
        forall|k: int|
            t0@.len() <= k < t1@.len() ==> {
                let (to, cmd) = #[trigger] t1@[k];
                let step = k - t0@.len();
                &&& to == addr
                &&& on_the_wire(path[step], cmd.mode)
                &&& cmd.flags == 0
                &&& cmd.seq == (n0 + step) % 0x1_0000_0000_0000_0000
                &&& cmd.timestamp_ns == now_ns
                &&& forall|a: int| 0 <= a < 6 ==> #[trigger] cmd.axes@[a] == 0
            },
    decreases path.len(),
{
    if path.len() > 0 {
        let (t, cmd, s) = choose|
            t: CapturingTransport,
            cmd: ControlCommand,
            s: Result<(), Seq<char>>,
        | #[trigger]
            CapturingTransport::sends(t0, t, addr, cmd, s) && is_command(
                cmd,
                path[0],
                n0,
                now_ns,
            ) && match s {
                Ok(_) => drives(
                    t,
                    t1,
                    addr,
                    path.drop_first(),
                    path[0],
                    seq_after(n0),
                    now_ns,
                    m1,
                    n1,
                    r,
                ),
                Err(e) => t1 == t && m1 == m0 && n1 == n0 && r == Err::<(), Seq<char>>(e),
            };
        let rest = path.drop_first();
        law_steps_are_sent(t, t1, addr, rest, path[0], seq_after(n0), now_ns, m1, n1, r);
        assert forall|k: int| 0 <= k < t0@.len() implies #[trigger] t1@[k] == t0@[k] by {
            assert(t@[k] == t0@[k]);
        }
        assert(t1@[t0@.len() as int] == t@[t0@.len() as int]);
        assert forall|k: int| t0@.len() <= k < t1@.len() implies {
            let (to, cmd) = #[trigger] t1@[k];
            let step = k - t0@.len();
            &&& to == addr
            &&& on_the_wire(path[step], cmd.mode)
            &&& cmd.flags == 0
            &&& cmd.seq == (n0 + step) % 0x1_0000_0000_0000_0000
            &&& cmd.timestamp_ns == now_ns
            &&& forall|a: int| 0 <= a < 6 ==> #[trigger] cmd.axes@[a] == 0
        } by {
            if k > t0@.len() {
                assert(rest[k - t@.len()] == path[k - t0@.len()]);
            }
        }
    }
}

/// With a transport that keeps what it sends and the default policy, a call of
/// `take_manual_control` for a unit is answered with a result, and the last
/// command sent went to that unit and carries the number of FULL-TELEOP, unless
/// the unit was in that mode already, when nothing is sent; `engage_autonomy`
/// the same with AUTO.
pub proof fn law_tools_command_the_unit<R: Recorder>(
    before: Fleet<CapturingTransport, R>,
    after: Fleet<CapturingTransport, R>,
    req: Value,
    args: Value,
    i: int,
    now_ns: u64,
    reply: Value,
)
    requires
        before.wf(),
        default_policy(before),
        handles(before, after, req, now_ns, reply),
        0 <= i < before.units().len(),
        names_unit(args, before.units()[i].id),
    ensures
        calls_tool(req, "take_manual_control"@, args) ==> {
            let sent = after.transport()@;
            &&& reply.field("result"@) is Some
            &&& before.units()[i].mode == Mode::FullTeleop ==> sent == before.transport()@
            &&& before.units()[i].mode != Mode::FullTeleop ==> {
                &&& sent.len() > before.transport()@.len()
                &&& sent.last().0 == before.units()[i].addr@
                &&& sent.last().1.mode == 2
            }
        },
        calls_tool(req, "engage_autonomy"@, args) ==> {
            let sent = after.transport()@;
            &&& reply.field("result"@) is Some
            &&& before.units()[i].mode == Mode::Auto ==> sent == before.transport()@
            &&& before.units()[i].mode != Mode::Auto ==> {
                &&& sent.len() > before.transport()@.len()
                &&& sent.last().0 == before.units()[i].addr@
                &&& sent.last().1.mode == 0
            }
        },
{
    lemma_names_differ();
    let u = before.units()[i].id;
    let id = field_or_null(req, "id"@);
    if calls_tool(req, "take_manual_control"@, args) {
        let name = "take_manual_control"@;
        assert(calls(before, after, name, args, id, now_ns, reply));
        assert(call_drives(before, after, u, Mode::FullTeleop, name, id, now_ns, reply));
        lemma_commanded(before, after, i, Mode::FullTeleop, name, id, now_ns, reply);
    }
    if calls_tool(req, "engage_autonomy"@, args) {
        let name = "engage_autonomy"@;
        assert(calls(before, after, name, args, id, now_ns, reply));
        assert(call_drives(before, after, u, Mode::Auto, name, id, now_ns, reply));
        lemma_commanded(before, after, i, Mode::Auto, name, id, now_ns, reply);
    }
}

proof fn lemma_commanded<R: Recorder>(
    before: Fleet<CapturingTransport, R>,
    after: Fleet<CapturingTransport, R>,
    i: int,
    target: Mode,
    name: Seq<char>,
    id: Value,
    now_ns: u64,
    reply: Value,
)
    requires
        before.wf(),
        default_policy(before),
        0 <= i < before.units().len(),
        call_drives(before, after, before.units()[i].id, target, name, id, now_ns, reply),
    ensures
        reply.field("result"@) is Some,
        before.units()[i].mode == target ==> after.transport()@ == before.transport()@,
        before.units()[i].mode != target ==> {
            let sent = after.transport()@;
            &&& sent.len() > before.transport()@.len()
            &&& sent.last().0 == before.units()[i].addr@
            &&& on_the_wire(target, sent.last().1.mode)
        },
{
    let u = before.units()[i];
    let v = after.units()[i];
    let done = driven_value(u.id, name);
    let r = choose|r: Result<(), CloudErrorView>| #[trigger]
        mode_change(before, after, u.id, target, now_ns, r) && reply == call_reply(id, done, r);
    lemma_unit_is_at(before, i);
    law_default_policy_reaches_all(before.policy(), u.mode, target);
    let path = staged_path(before.policy(), u.mode, target)->0;
    assert(commanded(before, after, i, path, now_ns, r));
    let sent = choose|sent: Result<(), Seq<char>>| #[trigger]
        drives(
            before.transport(),
            after.transport(),
            u.addr@,
            path,
            u.mode,
            u.cmd_seq,
            now_ns,
            v.mode,
            v.cmd_seq,
            sent,
        ) && r == (match sent {
            Ok(_) => Ok::<(), CloudErrorView>(()),
            Err(e) => Err(transport_failure(u.addr@, e)),
        });
    law_steps_are_sent(
        before.transport(),
        after.transport(),
        u.addr@,
        path,
        u.mode,
        u.cmd_seq,
        now_ns,
        v.mode,
        v.cmd_seq,
        sent,
    );
    lemma_reply_kinds(id, done, 0, Seq::empty());
    if u.mode == target {
        assert(path.len() == 0);
        assert(after.transport()@ =~= before.transport()@);
    } else {
        assert(path.last() == target);
        let k = after.transport()@.len() - 1;
        assert(after.transport()@[k] == after.transport()@.last());
        assert(path[k - before.transport()@.len()] == path.last());
    }
}

// --- Names of modes ----------------------------------------------------------------------

/// A mode is called by its name or by another one for it, in any letter case, and
/// by nothing else; the name that is shown of a mode calls it.
pub proof fn law_modes_by_name(name: Seq<char>, m: Mode)
    ensures
        ({
            let n = lower_ascii(name);
            &&& mode_named(name) == Some(Mode::Auto) <==> n == "auto"@
            &&& mode_named(name) == Some(Mode::Assist) <==> n == "assist"@
            &&& mode_named(name) == Some(Mode::FullTeleop) <==> n == "teleop"@ || n
                == "fullteleop"@ || n == "full_teleop"@
            &&& mode_named(name) == Some(Mode::EmergencyStop) <==> n == "estop"@ || n
                == "emergency"@ || n == "emergencystop"@
        }),
        mode_named(mode_name(m)) == Some(m),
{
    lemma_mode_words();
    reveal_strlit("auto");
    reveal_strlit("assist");
    reveal_strlit("teleop");
    reveal_strlit("fullteleop");
    reveal_strlit("full_teleop");
    reveal_strlit("estop");
    reveal_strlit("emergency");
    reveal_strlit("emergencystop");
    reveal_strlit("AUTO");
    reveal_strlit("ASSIST");
    reveal_strlit("TELEOP");
    reveal_strlit("ESTOP");
    assert("emergency"@.len() == 9 && "emergencystop"@.len() == 13);
    assert(lower_ascii("AUTO"@) =~= "auto"@);
    assert(lower_ascii("ASSIST"@) =~= "assist"@);
    assert(lower_ascii("TELEOP"@) =~= "teleop"@);
    assert(lower_ascii("ESTOP"@) =~= "estop"@);
}

// --- The way to a mode -------------------------------------------------------------------

/// A unit is commanded straight into a mode that may follow its own, and by way of
/// Assist only where it may not.
pub proof fn law_shortest_way_is_taken(table: TransitionTable, from: Mode, to: Mode)
    ensures
        from == to ==> staged_path(table, from, to) == Some(Seq::<Mode>::empty()),
        from != to && table.edge(from, to) ==> staged_path(table, from, to) == Some(seq![to]),
        staged_path(table, from, to) matches Some(path) ==> path.len() <= 2 && (from != to
            ==> path.last() == to) && (path.len() == 2 ==> path[0] == Mode::Assist && table.edge(
            from,
            Mode::Assist,
        ) && table.edge(Mode::Assist, to)),
{
}

// --- Who may do what ---------------------------------------------------------------------

/// The tool that a principal must be allowed to use for an action of a unit.
pub open spec fn needed_tool(action: Seq<char>, tool: Seq<char>) -> bool {
    ||| action == "assign"@ && tool == "assign_unit"@
    ||| action == "command"@ && tool == "send_control"@
    ||| action == "engage_autonomy"@ && tool == "engage_autonomy"@
    ||| action == "take_manual_control"@ && tool == "take_manual_control"@
}

/// With a gate, posting an action to a unit is answered `403`, and changes nothing,
/// exactly if the principal may not use the tool that the action needs:
/// `assign_unit` to assign, `send_control` to command a mode, and for the two
/// handovers the tools of their names.
pub proof fn law_actions_need_their_tool<T: UnitTransport, R: Recorder>(
    before: Fleet<T, R>,
    after: Fleet<T, R>,
    has_identity: bool,
    p: Principal,
    req: RequestView,
    id: u64,
    name: Seq<char>,
    tool: Seq<char>,
    now_ns: u64,
    action: ActionView,
)
    requires
        answers(before, after, true, has_identity, Verdict::Verified(p), req, now_ns, action),
        attestation_in(req) is Some,
        req.method is Post,
        needed_tool(name, tool),
        req.path == unit_path(id, name),
    ensures
        action matches ActionView::Reply(r) && (r.status == 403 <==> !p.may_use(tool)),
        !p.may_use(tool) ==> after.same(&before),
{
    lemma_names_differ();
    lemma_fixed_paths();
    lemma_action_path(id, name);
}

} // verus!
