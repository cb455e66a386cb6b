//! How requests are answered: the fleet dashboard API and the `/mcp` endpoint.
//!
//! With a gate, what changes the fleet needs an attestation that verifies and a
//! principal who may use the tool; everything else is answered `401` or `403`
//! before the fleet is touched.
use vstd::prelude::*;
use crate::VERSION;
use crate::cloud::auth::{
    attestation_in, authenticate_request, authorize_tool, handshake_init_from_json, opening_in,
    CipherSuite, HandshakeInit, Principal, Verdict,
};
use crate::cloud::error::{error_text, CloudError, CloudErrorView};
use crate::cloud::fleet::{
    assigns, info_of, info_value, mode_change, mode_named, parse_mode, result_of, unit_at, Fleet,
    UnitState, UnitTransport,
};
use crate::cloud::http::{
    json_response, text_response, Method, Request, RequestView, Response, ResponseView,
};
use crate::cloud::json::{parse_result, uint_value, Json, Value};
use crate::cloud::mcp::{
    handles, listing, listing_json, text_at, text_field, text_or_empty, tool_called, McpServer,
};
use crate::cloud::recorder::Recorder;
use crate::cloud::sfu::live_count;
use crate::runtime::mode::{mode_name, Mode};
use crate::text::{
    chars_of, ends_with, is_text, lemma_first_at, lemma_first_at_is, parse_unsigned, same_text,
    segments, split_segments, text_of, unsigned_up_to, views,
};

verus! {

// --- Paths ---------------------------------------------------------------------------

/// The unit id in a path `/api/units/<id>[/...]`.
pub open spec fn unit_id_in(path: Seq<char>) -> Option<u64> {
    let parts = segments(path, '/');
    if parts.len() >= 3 && parts[0] == "api"@ && parts[1] == "units"@ {
        match unsigned_up_to(parts[2], u64::MAX as nat) {
            Some(n) => Some(n as u64),
            None => None,
        }
    } else {
        None
    }
}

/// The action in a path `/api/units/<id>/<action>`.
pub open spec fn action_in(path: Seq<char>) -> Option<Seq<char>> {
    let parts = segments(path, '/');
    if parts.len() >= 4 && parts[0] == "api"@ && parts[1] == "units"@ {
        Some(parts[3])
    } else {
        None
    }
}

/// Extracts the unit id from `/api/units/<id>[/...]`.
pub fn parse_unit_id(path: &str) -> (r: Option<u64>)
    ensures
        r == unit_id_in(path@),
{
    let chars: Vec<char> = chars_of(path);
    let parts: Vec<Vec<char>> = split_segments(chars.as_slice(), '/');
    proof {
        assert(views(parts@).len() == parts@.len());
    }
    if parts.len() >= 3 && is_text(parts[0].as_slice(), "api") && is_text(
        parts[1].as_slice(),
        "units",
    ) {
        parse_unsigned(parts[2].as_slice(), u64::MAX)
    } else {
        None
    }
}

/// Extracts the trailing action segment from `/api/units/<id>/<action>`.
pub fn unit_action(path: &str) -> (r: Option<String>)
    ensures
        match r {
            Some(a) => action_in(path@) == Some(a@),
            None => action_in(path@) is None,
        },
{
    let chars: Vec<char> = chars_of(path);
    let parts: Vec<Vec<char>> = split_segments(chars.as_slice(), '/');
    proof {
        assert(views(parts@).len() == parts@.len());
    }
    if parts.len() >= 4 && is_text(parts[0].as_slice(), "api") && is_text(
        parts[1].as_slice(),
        "units",
    ) {
        Some(text_of(parts[3].as_slice()))
    } else {
        None
    }
}

// --- Who may act -----------------------------------------------------------------------

/// Why a privileged action is refused, if it is: with a gate, `401` where no
/// attestation verifies, and `403` where the principal may not use the tool.
pub open spec fn refusal(gated: bool, verdict: Verdict, req: RequestView, tool: Seq<char>) -> Option<
    ResponseView,
> {
    if !gated {
        None
    } else {
        match verdict {
            Verdict::Verified(p) if attestation_in(req) is Some => if p.may_use(tool) {
                None
            } else {
                Some(text_response(403, "insufficient attestation for this action"@))
            },
            _ => Some(text_response(401, "authentication failed"@)),
        }
    }
}

/// Enforces admission for a privileged fleet action.
pub fn require_auth(gated: bool, verdict: &Verdict, req: &Request, tool: &str) -> (r: Result<
    (),
    Response,
>)
    ensures
        match r {
            Ok(_) => refusal(gated, *verdict, req@, tool@) is None,
            Err(resp) => refusal(gated, *verdict, req@, tool@) == Some(resp@),
        },
{
    if !gated {
        return Ok(());
    }
    match authenticate_request(verdict, req) {
        Ok(p) => if authorize_tool(p, tool) {
            Ok(())
        } else {
            Err(Response::error(403, "insufficient attestation for this action"))
        },
        Err(code) => Err(Response::error(code, "authentication failed")),
    }
}

/// Whether a tool changes the fleet.
pub open spec fn is_privileged(tool: Seq<char>) -> bool {
    tool == "assign_unit"@ || tool == "engage_autonomy"@ || tool == "take_manual_control"@
}

fn privileged(tool: &str) -> (r: bool)
    ensures
        r == is_privileged(tool@),
{
    same_text(tool, "assign_unit") || same_text(tool, "engage_autonomy") || same_text(
        tool,
        "take_manual_control",
    )
}

// --- Answers -------------------------------------------------------------------------

/// What is to be done with a request: send a reply, or carry out a handshake
/// first.
#[derive(Debug)]
pub enum Action {
    /// Send this response.
    Reply(Response),
    /// Verify the attestation and answer the handshake for the unit.
    Handshake { unit: u64, init: HandshakeInit },
}

/// What an [`Action`] says.
pub ghost enum ActionView {
    Reply(ResponseView),
    Handshake { unit: u64, attestation: Seq<u8>, suites: Seq<CipherSuite> },
}

impl View for Action {
    type V = ActionView;

    open spec fn view(&self) -> ActionView {
        match *self {
            Action::Reply(r) => ActionView::Reply(r@),
            Action::Handshake { unit, init } => ActionView::Handshake {
                unit,
                attestation: init.attestation@,
                suites: init.suites@,
            },
        }
    }
}

/// The JSON value of a body, or null where it is none.
pub open spec fn body_value(body: Seq<u8>) -> Value {
    match parse_result(body) {
        Ok(v) => v,
        Err(_) => Value::Null,
    }
}

fn body_json(body: &[u8]) -> (r: Json)
    ensures
        r@ == body_value(body@),
{
    match Json::parse(body) {
        Ok(v) => v,
        Err(_) => Json::Null,
    }
}

/// The state of the server as JSON.
pub open spec fn health_value(units: nat) -> Value {
    Value::Obj(
        seq![
            ("status"@, Value::Str("ok"@)),
            ("version"@, Value::Str(VERSION@)),
            ("units"@, uint_value(units as u64)),
        ],
    )
}

fn health_json(units: usize) -> (r: Json)
    ensures
        r@ == health_value(units as nat),
{
    let all: [(&str, Json); 3] = [
        ("status", Json::str("ok")),
        ("version", Json::str(VERSION)),
        ("units", Json::uint(units as u64)),
    ];
    let r: Json = Json::obj(all.as_slice());
    assert(r@->Obj_0 =~= health_value(units as nat)->Obj_0);
    r
}

/// A unit id and one more field.
pub open spec fn unit_value(unit: u64, key: Seq<char>, v: Value) -> Value {
    Value::Obj(seq![("unit_id"@, uint_value(unit)), (key, v)])
}

fn unit_json(unit: u64, key: &str, v: Json) -> (r: Json)
    ensures
        r@ == unit_value(unit, key@, v@),
{
    let all: [(&str, Json); 2] = [("unit_id", Json::uint(unit)), (key, v)];
    let r: Json = Json::obj(all.as_slice());
    assert(r@->Obj_0 =~= unit_value(unit, key@, v@)->Obj_0);
    r
}

/// The answer to a change that the fleet made or refused.
pub open spec fn change_answer(done: Value, r: Result<(), CloudErrorView>) -> ResponseView {
    match r {
        Ok(_) => json_response(200, done),
        Err(e) => text_response(409, error_text(e)),
    }
}

/// Assigning an operator to `unit` can lead from `before` to `after` with the
/// given answer.
pub open spec fn answers_assign<T: UnitTransport, R: Recorder>(
    before: Fleet<T, R>,
    after: Fleet<T, R>,
    unit: u64,
    operator: Seq<char>,
    resp: ResponseView,
) -> bool {
    exists|r: Result<(), CloudErrorView>| #[trigger]
        assigns(before, after, unit, operator, r) && resp == change_answer(
            unit_value(unit, "assigned"@, Value::Bool(true)),
            r,
        )
}

/// Commanding `unit` into `target` can lead from `before` to `after` with the
/// given answer, which says `done` where it was done.
pub open spec fn answers_mode<T: UnitTransport, R: Recorder>(
    before: Fleet<T, R>,
    after: Fleet<T, R>,
    unit: u64,
    target: Mode,
    now_ns: u64,
    done: Value,
    resp: ResponseView,
) -> bool {
    exists|r: Result<(), CloudErrorView>| #[trigger]
        mode_change(before, after, unit, target, now_ns, r) && resp == change_answer(done, r)
}

/// The tool whose use an action of a unit takes.
pub open spec fn tool_of(action: Seq<char>) -> Seq<char> {
    if action == "assign"@ {
        "assign_unit"@
    } else if action == "command"@ {
        "send_control"@
    } else {
        action
    }
}

/// Posting the action `name` to `unit` can lead from `before` to `after` with the
/// given answer.
pub open spec fn answers_post<T: UnitTransport, R: Recorder>(
    before: Fleet<T, R>,
    after: Fleet<T, R>,
    gated: bool,
    verdict: Verdict,
    req: RequestView,
    now_ns: u64,
    unit: u64,
    name: Seq<char>,
    resp: ResponseView,
) -> bool {
    let body = body_value(req.body);
    let tool = tool_of(name);
    if name != "assign"@ && name != "engage_autonomy"@ && name != "take_manual_control"@ && name
        != "command"@ {
        after.same(&before) && resp == text_response(405, "method not allowed"@)
    } else if let Some(no) = refusal(gated, verdict, req, tool) {
        after.same(&before) && resp == no
    } else if name == "assign"@ {
        match text_field(body, "operator"@) {
            Some(o) => answers_assign(before, after, unit, o, resp),
            None => after.same(&before) && resp == text_response(400, "missing operator"@),
        }
    } else if name == "command"@ {
        match mode_named(text_or_empty(body, "mode"@)) {
            Some(mode) => answers_mode(
                before,
                after,
                unit,
                mode,
                now_ns,
                unit_value(unit, "mode"@, Value::Str(mode_name(mode))),
                resp,
            ),
            None => after.same(&before) && resp == text_response(400, "missing/invalid mode"@),
        }
    } else {
        let target = if name == "engage_autonomy"@ {
            Mode::Auto
        } else {
            Mode::FullTeleop
        };
        answers_mode(
            before,
            after,
            unit,
            target,
            now_ns,
            unit_value(unit, "ok"@, Value::Bool(true)),
            resp,
        )
    }
}

/// The answer to reading about `unit`.
pub open spec fn answer_get<R: Recorder>(
    units: Seq<UnitState<R>>,
    unit: u64,
    action: Option<Seq<char>>,
) -> ResponseView {
    match action {
        None => match unit_at(units, unit) {
            Some(i) => json_response(200, info_value(info_of(units[i]))),
            None => text_response(404, "unit not found"@),
        },
        Some(name) => if name == "subscribers"@ {
            match unit_at(units, unit) {
                Some(i) => json_response(
                    200,
                    unit_value(
                        unit,
                        "subscribers"@,
                        uint_value(live_count(units[i].sfu@) as u64),
                    ),
                ),
                None => text_response(404, error_text(CloudErrorView::NotFound(unit))),
            }
        } else {
            text_response(405, "method not allowed"@)
        },
    }
}

/// What a request to open a handshake for `unit` asks for.
pub open spec fn handshake_action(has_identity: bool, unit: u64, body: Seq<u8>) -> ActionView {
    if !has_identity {
        ActionView::Reply(text_response(501, "secure handshake not configured"@))
    } else {
        match opening_in(body_value(body)) {
            Some((attestation, suites)) => ActionView::Handshake { unit, attestation, suites },
            None => ActionView::Reply(text_response(400, "missing attestation or suites"@)),
        }
    }
}

/// The answer to a request that names no unit.
pub open spec fn answer_general<R: Recorder>(units: Seq<UnitState<R>>, req: RequestView) -> ResponseView {
    if req.method is Get && req.path == "/api/units"@ {
        json_response(200, listing("units"@, units))
    } else if req.method is Get && req.path == "/api/sessions"@ {
        json_response(200, listing("sessions"@, units))
    } else {
        text_response(404, "not found"@)
    }
}

/// A dashboard request can lead from `before` to `after` with the given action.
pub open spec fn answers_api<T: UnitTransport, R: Recorder>(
    before: Fleet<T, R>,
    after: Fleet<T, R>,
    gated: bool,
    has_identity: bool,
    verdict: Verdict,
    req: RequestView,
    now_ns: u64,
    action: ActionView,
) -> bool {
    if req.path == "/api/health"@ {
        after.same(&before) && action == ActionView::Reply(
            json_response(200, health_value(before.units().len())),
        )
    } else {
        match unit_id_in(req.path) {
            None => after.same(&before) && action == ActionView::Reply(
                answer_general(before.units(), req),
            ),
            Some(unit) => if "/secure/handshake"@.is_suffix_of(req.path) && req.method is Post {
                after.same(&before) && action == handshake_action(has_identity, unit, req.body)
            } else if req.method is Get {
                after.same(&before) && action == ActionView::Reply(
                    answer_get(before.units(), unit, action_in(req.path)),
                )
            } else if req.method is Post && action_in(req.path) is Some {
                action matches ActionView::Reply(resp) && answers_post(
                    before,
                    after,
                    gated,
                    verdict,
                    req,
                    now_ns,
                    unit,
                    action_in(req.path)->0,
                    resp,
                )
            } else {
                after.same(&before) && action == ActionView::Reply(
                    text_response(405, "method not allowed"@),
                )
            },
        }
    }
}

/// Why an MCP request is refused, if it is: with a gate, `401` where no
/// attestation verifies, and `403` where it calls a privileged tool that the
/// principal may not use.
pub open spec fn mcp_refusal(gated: bool, verdict: Verdict, req: RequestView, v: Value) -> Option<
    ResponseView,
> {
    if !gated {
        None
    } else {
        match verdict {
            Verdict::Verified(p) if attestation_in(req) is Some => match tool_called(v) {
                Some(tool) => if is_privileged(tool) && !p.may_use(tool) {
                    Some(text_response(403, "insufficient attestation for this action"@))
                } else {
                    None
                },
                None => None,
            },
            _ => Some(text_response(401, "missing or invalid attestation"@)),
        }
    }
}

/// Handling the MCP request `v` can lead from `before` to `after` with the given
/// answer.
pub open spec fn mcp_handled<T: UnitTransport, R: Recorder>(
    before: Fleet<T, R>,
    after: Fleet<T, R>,
    v: Value,
    now_ns: u64,
    resp: ResponseView,
) -> bool {
    exists|reply: Value| #[trigger]
        handles(before, after, v, now_ns, reply) && resp == json_response(200, reply)
}

/// A request to the MCP endpoint can lead from `before` to `after` with the given
/// answer.
pub open spec fn answers_mcp<T: UnitTransport, R: Recorder>(
    before: Fleet<T, R>,
    after: Fleet<T, R>,
    gated: bool,
    verdict: Verdict,
    req: RequestView,
    now_ns: u64,
    resp: ResponseView,
) -> bool {
    match parse_result(req.body) {
        Err(e) => after.same(&before) && resp == text_response(
            400,
            "invalid JSON-RPC body: "@ + e,
        ),
        Ok(v) => match mcp_refusal(gated, verdict, req, v) {
            Some(no) => after.same(&before) && resp == no,
            None => mcp_handled(before, after, v, now_ns, resp),
        },
    }
}

/// A request can lead from `before` to `after` with the given action.
pub open spec fn answers<T: UnitTransport, R: Recorder>(
    before: Fleet<T, R>,
    after: Fleet<T, R>,
    gated: bool,
    has_identity: bool,
    verdict: Verdict,
    req: RequestView,
    now_ns: u64,
    action: ActionView,
) -> bool {
    if req.method is Post && req.path == "/mcp"@ {
        action matches ActionView::Reply(resp) && answers_mcp(
            before,
            after,
            gated,
            verdict,
            req,
            now_ns,
            resp,
        )
    } else {
        answers_api(before, after, gated, has_identity, verdict, req, now_ns, action)
    }
}

/// Routes a parsed request to the MCP endpoint or the dashboard API.
pub fn dispatch<T: UnitTransport, R: Recorder>(
    fleet: &mut Fleet<T, R>,
    mcp: &McpServer,
    gated: bool,
    has_identity: bool,
    verdict: &Verdict,
    req: &Request,
    now_ns: u64,
) -> (action: Action)
    requires
        old(fleet).wf(),
    ensures
        final(fleet).wf(),
        answers(
            *old(fleet),
            *final(fleet),
            gated,
            has_identity,
            *verdict,
            req@,
            now_ns,
            action@,
        ),
{
    if matches!(req.method, Method::Post) && same_text(req.path.as_str(), "/mcp") {
        Action::Reply(mcp_response(fleet, mcp, gated, verdict, req, now_ns))
    } else {
        api_response(fleet, gated, has_identity, verdict, req, now_ns)
    }
}

fn mcp_response<T: UnitTransport, R: Recorder>(
    fleet: &mut Fleet<T, R>,
    mcp: &McpServer,
    gated: bool,
    verdict: &Verdict,
    req: &Request,
    now_ns: u64,
) -> (resp: Response)
    requires
        old(fleet).wf(),
    ensures
        final(fleet).wf(),
        answers_mcp(*old(fleet), *final(fleet), gated, *verdict, req@, now_ns, resp@),
{
    let v: Json = match Json::parse(req.body.as_slice()) {
        Ok(v) => v,
        Err(e) => {
            let mut msg: String = "invalid JSON-RPC body: ".to_owned();
            msg.append(e.as_str());
            return Response::error(400, msg.as_str());
        },
    };
    if gated {
        match authenticate_request(verdict, req) {
            Ok(p) => {
                if let Some(tool) = called_tool(&v) {
                    if privileged(tool.as_str()) && !authorize_tool(p, tool.as_str()) {
                        return Response::error(403, "insufficient attestation for this action");
                    }
                }
            },
            Err(_) => {
                return Response::error(401, "missing or invalid attestation");
            },
        }
    }
    assert(mcp_refusal(gated, *verdict, req@, v@) is None);
    let reply: Json = mcp.handle(&v, fleet, now_ns);
    let resp: Response = Response::json(200, reply);
    proof {
        assert(handles(*old(fleet), *fleet, v@, now_ns, reply@));
        assert(mcp_handled(*old(fleet), *fleet, v@, now_ns, resp@));
    }
    resp
}

/// The name of the tool that a request calls, if it calls one.
fn called_tool(req: &Json) -> (r: Option<String>)
    ensures
        match r {
            Some(t) => tool_called(req@) == Some(t@),
            None => tool_called(req@) is None,
        },
{
    proof {
        reveal_strlit("tools/call");
        reveal_strlit("");
        assert(""@ =~= Seq::<char>::empty());
        assert("tools/call"@.len() == 10);
    }
    match text_at(req, "method") {
        Some(m) => if same_text(m, "tools/call") {
            match req.get("params") {
                Some(p) => match text_at(p, "name") {
                    Some(n) => Some(n.to_owned()),
                    None => Some("".to_owned()),
                },
                None => Some("".to_owned()),
            }
        } else {
            None
        },
        None => None,
    }
}

/// Handles a dashboard API request against the fleet.
fn api_response<T: UnitTransport, R: Recorder>(
    fleet: &mut Fleet<T, R>,
    gated: bool,
    has_identity: bool,
    verdict: &Verdict,
    req: &Request,
    now_ns: u64,
) -> (action: Action)
    requires
        old(fleet).wf(),
    ensures
        final(fleet).wf(),
        answers_api(
            *old(fleet),
            *final(fleet),
            gated,
            has_identity,
            *verdict,
            req@,
            now_ns,
            action@,
        ),
{
    let path: &str = req.path.as_str();
    if same_text(path, "/api/health") {
        return Action::Reply(Response::json(200, health_json(fleet.unit_count())));
    }
    let get: bool = matches!(req.method, Method::Get);
    let post: bool = matches!(req.method, Method::Post);
    let unit: u64 = match parse_unit_id(path) {
        Some(i) => i,
        None => {
            let resp: Response = if get && same_text(path, "/api/units") {
                Response::json(200, listing_json("units", &*fleet))
            } else if get && same_text(path, "/api/sessions") {
                Response::json(200, listing_json("sessions", &*fleet))
            } else {
                Response::error(404, "not found")
            };
            return Action::Reply(resp);
        },
    };
    let chars: Vec<char> = chars_of(path);
    let tail: Vec<char> = chars_of("/secure/handshake");
    if post && ends_with(chars.as_slice(), tail.as_slice()) {
        return handle_secure_handshake(has_identity, unit, req);
    }
    let action: Option<String> = unit_action(path);
    if get {
        return Action::Reply(get_response(&*fleet, unit, &action));
    }
    if post {
        if let Some(name) = action {
            return Action::Reply(
                post_response(fleet, gated, verdict, req, now_ns, unit, name.as_str()),
            );
        }
    }
    Action::Reply(Response::error(405, "method not allowed"))
}

/// Opens a mutually-authenticated handshake for `unit`.
fn handle_secure_handshake(has_identity: bool, unit: u64, req: &Request) -> (action: Action)
    ensures
        action@ == handshake_action(has_identity, unit, req@.body),
{
    if !has_identity {
        return Action::Reply(Response::error(501, "secure handshake not configured"));
    }
    let body: Json = body_json(req.body.as_slice());
    match handshake_init_from_json(&body) {
        Some(init) => Action::Handshake { unit, init },
        None => Action::Reply(Response::error(400, "missing attestation or suites")),
    }
}

fn get_response<T: UnitTransport, R: Recorder>(
    fleet: &Fleet<T, R>,
    unit: u64,
    action: &Option<String>,
) -> (resp: Response)
    requires
        fleet.wf(),
    ensures
        resp@ == answer_get(
            fleet.units(),
            unit,
            match *action {
                Some(a) => Some(a@),
                None => None,
            },
        ),
{
    match action {
        None => match fleet.get(unit) {
            Some(u) => {
                proof {
                    let i = unit_at(fleet.units(), unit)->0;
                    fleet.lemma_units(i, i);
                }
                Response::json(200, u.info().to_json())
            },
            None => Response::error(404, "unit not found"),
        },
        Some(name) => if same_text(name.as_str(), "subscribers") {
            match fleet.subscriber_count(unit) {
                Ok(c) => Response::json(200, unit_json(unit, "subscribers", Json::uint(c as u64))),
                Err(e) => {
                    let msg: String = e.message();
                    Response::error(404, msg.as_str())
                },
            }
        } else {
            Response::error(405, "method not allowed")
        },
    }
}

fn post_response<T: UnitTransport, R: Recorder>(
    fleet: &mut Fleet<T, R>,
    gated: bool,
    verdict: &Verdict,
    req: &Request,
    now_ns: u64,
    unit: u64,
    name: &str,
) -> (resp: Response)
    requires
        old(fleet).wf(),
    ensures
        final(fleet).wf(),
        answers_post(
            *old(fleet),
            *final(fleet),
            gated,
            *verdict,
            req@,
            now_ns,
            unit,
            name@,
            resp@,
        ),
{
    let assign: bool = same_text(name, "assign");
    let engage: bool = same_text(name, "engage_autonomy");
    let take: bool = same_text(name, "take_manual_control");
    let command: bool = same_text(name, "command");
    if !assign && !engage && !take && !command {
        return Response::error(405, "method not allowed");
    }
    let tool: &str = if assign {
        "assign_unit"
    } else if command {
        "send_control"
    } else {
        name
    };
    proof {
        reveal_strlit("assign");
        reveal_strlit("command");
        reveal_strlit("engage_autonomy");
        reveal_strlit("take_manual_control");
        assert("assign"@.len() == 6 && "command"@.len() == 7 && "engage_autonomy"@.len() == 15
            && "take_manual_control"@.len() == 19);
    }
    if let Err(no) = require_auth(gated, verdict, req, tool) {
        return no;
    }
    if assign {
        let body: Json = body_json(req.body.as_slice());
        return match text_at(&body, "operator") {
            Some(o) => assign_action(fleet, unit, o),
            None => Response::error(400, "missing operator"),
        };
    }
    if command {
        let body: Json = body_json(req.body.as_slice());
        let wanted: &str = match text_at(&body, "mode") {
            Some(m) => m,
            None => "",
        };
        proof {
            reveal_strlit("");
            assert(""@ =~= Seq::<char>::empty());
        }
        return match parse_mode(wanted) {
            Some(mode) => mode_action(
                fleet,
                unit,
                mode,
                now_ns,
                unit_json(unit, "mode", Json::str(mode.name())),
            ),
            None => Response::error(400, "missing/invalid mode"),
        };
    }
    let target: Mode = if engage {
        Mode::Auto
    } else {
        Mode::FullTeleop
    };
    mode_action(fleet, unit, target, now_ns, unit_json(unit, "ok", Json::Bool(true)))
}

fn assign_action<T: UnitTransport, R: Recorder>(
    fleet: &mut Fleet<T, R>,
    unit: u64,
    operator: &str,
) -> (resp: Response)
    requires
        old(fleet).wf(),
    ensures
        final(fleet).wf(),
        answers_assign(*old(fleet), *final(fleet), unit, operator@, resp@),
{
    let res: Result<(), CloudError> = fleet.assign(unit, operator.to_owned());
    assert(assigns(*old(fleet), *fleet, unit, operator@, result_of(res)));
    match res {
        Ok(_) => Response::json(200, unit_json(unit, "assigned", Json::Bool(true))),
        Err(e) => {
            let msg: String = e.message();
            Response::error(409, msg.as_str())
        },
    }
}

fn mode_action<T: UnitTransport, R: Recorder>(
    fleet: &mut Fleet<T, R>,
    unit: u64,
    target: Mode,
    now_ns: u64,
    done: Json,
) -> (resp: Response)
    requires
        old(fleet).wf(),
    ensures
        final(fleet).wf(),
        answers_mode(*old(fleet), *final(fleet), unit, target, now_ns, done@, resp@),
{
    let res: Result<(), CloudError> = fleet.set_mode(unit, target, now_ns);
    assert(mode_change(*old(fleet), *fleet, unit, target, now_ns, result_of(res)));
    match res {
        Ok(_) => Response::json(200, done),
        Err(e) => {
            let msg: String = e.message();
            Response::error(409, msg.as_str())
        },
    }
}

// --- Laws ----------------------------------------------------------------------------

/// A request that reads, rather than posts, leaves the fleet as it is.
pub proof fn law_reading_changes_nothing<T: UnitTransport, R: Recorder>(
    before: Fleet<T, R>,
    after: Fleet<T, R>,
    gated: bool,
    has_identity: bool,
    verdict: Verdict,
    req: RequestView,
    now_ns: u64,
    action: ActionView,
)
    requires
        answers(before, after, gated, has_identity, verdict, req, now_ns, action),
        !(req.method is Post),
    ensures
        after.same(&before),
{
}

/// An MCP request that calls no privileged tool leaves the fleet as it is.
pub proof fn law_only_privileged_tools_change_the_fleet<T: UnitTransport, R: Recorder>(
    before: Fleet<T, R>,
    after: Fleet<T, R>,
    v: Value,
    now_ns: u64,
    reply: Value,
)
    requires
        handles(before, after, v, now_ns, reply),
        tool_called(v) matches Some(tool) ==> !is_privileged(tool),
    ensures
        after.same(&before),
{
    reveal_strlit("initialize");
    reveal_strlit("tools/list");
    reveal_strlit("tools/call");
    assert("initialize"@[0] == 'i' && "tools/list"@[6] == 'l' && "tools/call"@[6] == 'c');
}

/// With a gate, a request without an attestation that verifies leaves the fleet
/// as it is, whatever it asks for.
pub proof fn law_gate_protects_the_fleet<T: UnitTransport, R: Recorder>(
    before: Fleet<T, R>,
    after: Fleet<T, R>,
    has_identity: bool,
    verdict: Verdict,
    req: RequestView,
    now_ns: u64,
    action: ActionView,
)
    requires
        answers(before, after, true, has_identity, verdict, req, now_ns, action),
        attestation_in(req) is None || verdict is Rejected,
    ensures
        after.same(&before),
{
}

/// With a gate, a principal that may use none of the tools cannot change the
/// fleet.
pub proof fn law_insufficient_attestation_changes_nothing<T: UnitTransport, R: Recorder>(
    before: Fleet<T, R>,
    after: Fleet<T, R>,
    has_identity: bool,
    p: Principal,
    req: RequestView,
    now_ns: u64,
    action: ActionView,
)
    requires
        answers(before, after, true, has_identity, Verdict::Verified(p), req, now_ns, action),
        !p.may_use("assign_unit"@),
        !p.may_use("engage_autonomy"@),
        !p.may_use("take_manual_control"@),
        !p.may_use("send_control"@),
    ensures
        after.same(&before),
{
    if req.method is Post && req.path == "/mcp"@ {
        if let Ok(v) = parse_result(req.body) {
            if mcp_refusal(true, Verdict::Verified(p), req, v) is None {
                let resp = action->Reply_0;
                let reply = choose|reply: Value| #[trigger]
                    handles(before, after, v, now_ns, reply) && resp == json_response(200, reply);
                law_only_privileged_tools_change_the_fleet(before, after, v, now_ns, reply);
            }
        }
    }
}

/// The paths with an answer of their own name no unit.
pub proof fn lemma_fixed_paths()
    ensures
        unit_id_in("/mcp"@) is None,
        unit_id_in("/api/health"@) is None,
{
    reveal_strlit("/mcp");
    reveal_strlit("/api/health");
    let a = "/mcp"@;
    let b = "/api/health"@;
    lemma_first_at_is(a, '/', 0);
    lemma_first_at(a.skip(1), '/');
    assert(segments(a.skip(1), '/').len() == 1);
    lemma_first_at_is(b, '/', 0);
    let c = b.skip(1);
    lemma_first_at_is(c, '/', 3);
    lemma_first_at(c.skip(4), '/');
    assert(segments(c.skip(4), '/').len() == 1);
    assert(segments(c, '/').len() == 2);
}

/// With a gate, posting one of the privileged actions is answered `401` where no
/// attestation verifies, and `403` where the principal may not use its tool.
pub proof fn law_privileged_actions_are_gated<T: UnitTransport, R: Recorder>(
    before: Fleet<T, R>,
    after: Fleet<T, R>,
    has_identity: bool,
    verdict: Verdict,
    req: RequestView,
    now_ns: u64,
    action: ActionView,
)
    requires
        answers(before, after, true, has_identity, verdict, req, now_ns, action),
        req.method is Post,
        unit_id_in(req.path) is Some,
        !"/secure/handshake"@.is_suffix_of(req.path),
        action_in(req.path) matches Some(a) && (a == "assign"@ || a == "engage_autonomy"@ || a
            == "take_manual_control"@ || a == "command"@),
    ensures
        attestation_in(req) is None || verdict is Rejected ==> action == ActionView::Reply(
            text_response(401, "authentication failed"@),
        ),
        attestation_in(req) is Some && verdict is Verified && !verdict->Verified_0.may_use(
            tool_of(action_in(req.path)->0),
        ) ==> action == ActionView::Reply(
            text_response(403, "insufficient attestation for this action"@),
        ),
{
    lemma_fixed_paths();
}

/// With a gate, an MCP request is answered `401` where no attestation verifies, and
/// `403` where it calls a tool that changes the fleet and the principal may not
/// use it; every other request is let through.
pub proof fn law_mcp_requests_are_gated(verdict: Verdict, req: RequestView, v: Value)
    ensures
        attestation_in(req) is None || verdict is Rejected ==> (mcp_refusal(
            true,
            verdict,
            req,
            v,
        ) matches Some(r) && r.status == 401),
        attestation_in(req) is Some ==> (verdict matches Verdict::Verified(p) ==> {
            let tool = tool_called(v);
            let changes = tool == Some("assign_unit"@) || tool == Some("engage_autonomy"@) || tool
                == Some("take_manual_control"@);
            &&& changes && !p.may_use(tool->0) ==> (mcp_refusal(true, verdict, req, v) matches Some(
                r,
            ) && r.status == 403)
            &&& !changes || p.may_use(tool->0) ==> mcp_refusal(true, verdict, req, v) is None
        }),
        mcp_refusal(false, verdict, req, v) is None,
{
}

} // verus!
