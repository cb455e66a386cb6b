//! HTTP, JSON, the tool endpoint and the server.
use tpt_teleop::cloud::auth::{
    attestation_header, authenticate_request, authorize_tool, extract_attestation,
    handshake_init_from_json, handshake_resp_to_json, hex_decode, hex_encode, hex_val, suite_from_u8,
    suite_to_u8, CipherSuite, Principal, Verdict,
};
use tpt_teleop::cloud::dispatch::{parse_unit_id, unit_action, Action};
use tpt_teleop::cloud::fleet::{CapturingTransport, Fleet, NullTransport};
use tpt_teleop::cloud::http::{find_subslice, status_text, HttpError, Method, Request, Response};
use tpt_teleop::cloud::json::Json;
use tpt_teleop::cloud::mcp::McpServer;
use tpt_teleop::cloud::recorder::{NullRecorder, VecRecorder};
use tpt_teleop::cloud::server::{
    FleetServer, HandshakeResult, ServerLimits, Service, LISTENER_TOKEN, MAX_BUFFERED,
};
use tpt_teleop::runtime::mode::Mode;
use tpt_teleop::VERSION;

fn addr() -> String {
    "127.0.0.1:5000".to_string()
}

fn num(v: f64) -> Json {
    Json::num(v.to_bits())
}

// --- HTTP ----------------------------------------------------------------------------

#[test]
fn parse_get_no_body() {
    let raw = b"GET /api/health HTTP/1.1\r\nHost: x\r\n\r\n";
    let (req, total) = Request::parse(raw).unwrap().unwrap();
    assert_eq!(req.method, Method::Get);
    assert_eq!(req.path, "/api/health");
    assert_eq!(req.query, "");
    assert_eq!(total, raw.len());
    assert!(req.body.is_empty());
}

#[test]
fn parse_post_with_query_and_body() {
    let raw = b"POST /mcp?trace=1 HTTP/1.1\r\nContent-Length: 5\r\n\r\nhello";
    let (req, total) = Request::parse(raw).unwrap().unwrap();
    assert_eq!(req.method, Method::Post);
    assert_eq!(req.path, "/mcp");
    assert_eq!(req.query, "trace=1");
    assert_eq!(req.body, b"hello");
    assert_eq!(total, raw.len());
}

#[test]
fn parse_incomplete_returns_none() {
    let raw = b"POST /mcp HTTP/1.1\r\nContent-Length: 50\r\n\r\n short";
    assert!(Request::parse(raw).unwrap().is_none());
    assert!(Request::parse(b"GET /x HTTP/1.1\r\nHost:").unwrap().is_none());
}

#[test]
fn malformed_requests_are_refused() {
    assert_eq!(Request::parse(b"GET /x\r\n\r\n").err(), Some(HttpError::Malformed));
    assert_eq!(Request::parse(b"\xff /x HTTP/1.1\r\n\r\n").err(), Some(HttpError::Malformed));
    assert_eq!(HttpError::Malformed.message(), "malformed HTTP request");
}

#[test]
fn header_lines_need_a_colon() {
    let raw = b"GET /x HTTP/1.1\r\nbadheader\r\n\r\n";
    assert_eq!(Request::parse(raw).err(), Some(HttpError::Malformed));
    let raw = b"GET /x HTTP/1.1\r\nHost: x\r\nbadheader\r\nA: b\r\n\r\nmore";
    assert_eq!(Request::parse(raw).err(), Some(HttpError::Malformed));
    // Nothing is refused before the head is complete.
    assert!(Request::parse(b"GET /x HTTP/1.1\r\nbadheader\r\n").unwrap().is_none());
    let raw = b"GET /x HTTP/1.1\r\nEmpty:\r\n\r\n";
    let (req, _) = Request::parse(raw).unwrap().unwrap();
    assert_eq!(req.headers, vec![("empty".to_string(), String::new())]);
}

#[test]
fn header_names_are_lowered() {
    let raw = "GET / HTTP/1.1\r\nX-Ärger:  a b \r\nUPPER:v\r\n\r\n";
    let (req, _) = Request::parse(raw.as_bytes()).unwrap().unwrap();
    assert_eq!(
        req.headers,
        vec![
            ("x-ärger".to_string(), "a b".to_string()),
            ("upper".to_string(), "v".to_string())
        ]
    );
}

#[test]
fn a_second_request_stays_behind_the_first() {
    let raw = b"POST / HTTP/1.1\r\nContent-Length: 2\r\n\r\nokGET";
    let (req, total) = Request::parse(raw).unwrap().unwrap();
    assert_eq!(req.body, b"ok");
    assert_eq!(total, raw.len() - 3);
}

#[test]
fn methods_have_tokens() {
    for t in ["GET", "POST", "PUT", "DELETE", "PATCH"] {
        assert_eq!(Method::parse(t).as_str(), t);
    }
    assert_eq!(Method::parse("get"), Method::Other("get".to_string()));
}

#[test]
fn response_serializes_with_headers() {
    let r = Response::json(200, Json::obj_str(&[("status", "ok")]));
    let bytes = r.to_bytes();
    let s = String::from_utf8_lossy(&bytes);
    assert!(s.starts_with("HTTP/1.1 200 OK\r\n"));
    assert!(s.contains("content-type: application/json"));
    assert!(s.contains("connection: close"));
    assert!(s.trim_end().ends_with("{\"status\":\"ok\"}"));
}

#[test]
fn responses_and_reasons() {
    let used = [
        (200, "OK"),
        (400, "Bad Request"),
        (401, "Unauthorized"),
        (403, "Forbidden"),
        (404, "Not Found"),
        (405, "Method Not Allowed"),
        (409, "Conflict"),
        (501, "Not Implemented"),
    ];
    for (code, phrase) in used {
        assert_eq!(status_text(code), phrase);
    }
    assert_eq!(status_text(599), "Unknown");
    let t = Response::error(404, "no such unit").to_bytes();
    let s = String::from_utf8(t).unwrap();
    assert_eq!(
        s,
        "HTTP/1.1 404 Not Found\r\ncontent-type: text/plain; charset=utf-8\r\ncontent-length: 12\r\nconnection: close\r\n\r\nno such unit"
    );
    assert_eq!(Response::html(200, "<p>").body, b"<p>");
    assert_eq!(find_subslice(b"abcabd", b"abd"), Some(3));
    assert_eq!(find_subslice(b"abc", b"x"), None);
}

// --- JSON ----------------------------------------------------------------------------

#[test]
fn serialize_primitives() {
    assert_eq!(Json::Null.write_to_string(), "null");
    assert_eq!(Json::Bool(true).write_to_string(), "true");
    assert_eq!(num(3.0).write_to_string(), "3");
    assert_eq!(num(2.5).write_to_string(), "2.5");
    assert_eq!(Json::str("hi").write_to_string(), "\"hi\"");
    assert_eq!(Json::uint(42).write_to_string(), "42");
}

#[test]
fn serialize_nested() {
    let v = Json::obj(&[
        ("name", Json::str("drone-1")),
        ("count", Json::uint(3)),
        ("tags", Json::arr(vec![Json::str("a"), Json::str("b")])),
    ]);
    assert_eq!(
        v.write_to_string(),
        "{\"name\":\"drone-1\",\"count\":3,\"tags\":[\"a\",\"b\"]}"
    );
}

#[test]
fn escapes_strings() {
    assert_eq!(Json::str("a\"b\\c").write_to_string(), "\"a\\\"b\\\\c\"");
    assert_eq!(Json::str("line\nbreak").write_to_string(), "\"line\\nbreak\"");
}

#[test]
fn roundtrip_parse() {
    let src = b"{\"name\":\"drone-1\",\"ok\":true,\"n\":3,\"vals\":[1,2.5,3],\"nested\":{\"x\":null}}";
    let v = Json::parse(src).unwrap();
    assert_eq!(v.get("name").and_then(|s| s.as_str()), Some("drone-1"));
    assert_eq!(v.get("ok").and_then(|b| b.as_bool()), Some(true));
    assert_eq!(v.get("n").and_then(|n| n.as_u64()), Some(3));
    assert_eq!(
        v.write_to_string(),
        Json::parse(v.write_to_string().as_bytes()).unwrap().write_to_string()
    );
}

#[test]
fn parse_rejects_trailing_garbage() {
    assert!(Json::parse(b"1 2").is_err());
    assert!(Json::parse(b"{").is_err());
    assert!(Json::parse(b"\"unterminated").is_err());
}

#[test]
fn json_strings_read_back() {
    let all: String = (0u8..0x80).map(|b| b as char).collect();
    for s in ["", "plain", "\"\\/", "\u{1}\u{1f}\n\r\t\u{8}\u{c}", all.as_str()] {
        let text = Json::str(s).write_to_string();
        assert!(text.bytes().all(|b| b >= 0x20), "{text}");
        assert_eq!(Json::parse(text.as_bytes()).unwrap().as_str(), Some(s));
    }
}

#[test]
fn json_numbers_read_and_write() {
    for (text, v) in [
        ("0", 0.0f64),
        ("-1.5", -1.5),
        ("1e3", 1000.0),
        ("0.1", 0.1),
        ("123456789012345680", 123456789012345680.0),
    ] {
        match Json::parse(text.as_bytes()).unwrap() {
            Json::Num(b) => assert_eq!(f64::from_bits(b), v),
            _ => panic!("not a number"),
        }
    }
    assert_eq!(num(-2.0).as_u64(), Some(0));
    assert_eq!(num(7.9).as_u64(), Some(7));
    assert_eq!(num(1e30).as_u64(), Some(u64::MAX));
    assert_eq!(Json::Null.as_u64(), None);
    assert_eq!(num(1.5).as_array().is_none(), true);
    let v = Json::parse("\"\\u00e9 \\n\"".as_bytes()).unwrap();
    assert_eq!(v.as_str(), Some("é \n"));
    let a = Json::parse(b"[1,[],{}]").unwrap();
    assert_eq!(a.as_array().unwrap().len(), 3);
    assert_eq!(a.clone().write_to_string(), "[1,[],{}]");
    assert_eq!(
        Json::obj_num(&[("a", 1.25f64.to_bits())]).write_to_string(),
        "{\"a\":1.25}"
    );
}

// --- Tools ---------------------------------------------------------------------------

fn call(id: f64, method: &str) -> Json {
    Json::obj(&[
        ("jsonrpc", Json::str("2.0")),
        ("id", num(id)),
        ("method", Json::str(method)),
    ])
}

fn tool_call(id: f64, name: &str, args: Json) -> Json {
    Json::obj(&[
        ("jsonrpc", Json::str("2.0")),
        ("id", num(id)),
        ("method", Json::str("tools/call")),
        ("params", Json::obj(&[("name", Json::str(name)), ("arguments", args)])),
    ])
}

fn empty_fleet() -> Fleet<NullTransport, VecRecorder> {
    Fleet::new(NullTransport)
}

#[test]
fn skeleton_compiles() {
    assert!(!VERSION.is_empty());
}

#[test]
fn initialize_handshake() {
    let srv = McpServer::new();
    let mut fleet = empty_fleet();
    let r = srv.handle(&call(1.0, "initialize"), &mut fleet, 0);
    assert_eq!(r.get("jsonrpc").and_then(|v| v.as_str()), Some("2.0"));
    assert!(r.get("result").is_some());
}

#[test]
fn tools_list_exposes_four_tools() {
    let srv = McpServer::new();
    let mut fleet = empty_fleet();
    let r = srv.handle(&call(2.0, "tools/list"), &mut fleet, 0);
    let tools = r.get("result").and_then(|x| x.get("tools")).unwrap();
    if let Json::Arr(items) = tools {
        assert_eq!(items.len(), 4);
    } else {
        panic!("tools not an array");
    }
}

#[test]
fn list_units_returns_registered_units() {
    let srv = McpServer::new();
    let mut fleet = empty_fleet();
    fleet.register_unit(5, addr(), VecRecorder::new(), 0).unwrap();
    let r = srv.handle(&tool_call(3.0, "list_units", Json::obj(&[])), &mut fleet, 0);
    assert!(r.get("error").is_none(), "got error: {r:?}");
    let units = r.get("result").and_then(|x| x.get("units")).unwrap();
    if let Json::Arr(items) = units {
        assert_eq!(items.len(), 1);
    } else {
        panic!("units not array");
    }
}

#[test]
fn engage_autonomy_drives_fleet_mode() {
    let srv = McpServer::default();
    let mut fleet: Fleet<CapturingTransport, VecRecorder> = Fleet::new(CapturingTransport::new());
    fleet.register_unit(1, addr(), VecRecorder::new(), 0).unwrap();
    let args = Json::obj(&[("unit_id", Json::uint(1))]);
    let r = srv.handle(&tool_call(4.0, "engage_autonomy", args), &mut fleet, 0);
    assert!(r.get("error").is_none(), "got error: {r:?}");
    assert_eq!(fleet.get(1).unwrap().mode, Mode::Auto);
}

#[test]
fn unknown_method_errors() {
    let srv = McpServer::new();
    let mut fleet = empty_fleet();
    let r = srv.handle(&call(5.0, "bogus"), &mut fleet, 0);
    assert!(r.get("error").is_some());
    assert_eq!(r.get("id").and_then(|v| v.as_u64()), Some(5));
}

#[test]
fn tool_errors_leave_the_fleet_alone() {
    let srv = McpServer::new();
    let mut fleet = empty_fleet();
    fleet.register_unit(1, addr(), VecRecorder::new(), 0).unwrap();
    for bad in [
        tool_call(1.0, "no_such_tool", Json::obj(&[])),
        tool_call(1.0, "engage_autonomy", Json::obj(&[])),
        tool_call(1.0, "assign_unit", Json::obj(&[("unit_id", Json::uint(1))])),
        tool_call(1.0, "take_manual_control", Json::obj(&[("unit_id", Json::uint(9))])),
    ] {
        let r = srv.handle(&bad, &mut fleet, 0);
        assert!(r.get("error").is_some(), "{bad:?}");
        assert!(r.get("result").is_none());
    }
    assert_eq!(fleet.get(1).unwrap().mode, Mode::Assist);
    let args = Json::obj(&[("unit_id", Json::uint(1)), ("operator", Json::str("kim"))]);
    let r = srv.handle(&tool_call(2.0, "assign_unit", args), &mut fleet, 0);
    assert!(r.get("error").is_none(), "{r:?}");
    assert_eq!(fleet.get(1).unwrap().assigned_operator.as_deref(), Some("kim"));
}

// --- The server ----------------------------------------------------------------------

type Server = FleetServer<CapturingTransport, VecRecorder>;

fn server_with(unit: u64) -> Server {
    let mut server = FleetServer::new(CapturingTransport::new());
    server.register_unit(unit, addr(), VecRecorder::new(), 0).unwrap();
    server
}

fn request(raw: &[u8]) -> Request {
    Request::parse(raw).unwrap().unwrap().0
}

fn reply(action: Action) -> Response {
    match action {
        Action::Reply(r) => r,
        Action::Handshake { .. } => panic!("expected a reply"),
    }
}

fn may(tools: &[&str]) -> Verdict {
    Verdict::Verified(Principal { tools: tools.iter().map(|t| t.to_string()).collect() })
}

#[test]
fn health_over_handle_request() {
    let mut server = server_with(1);
    let req = request(b"GET /api/health HTTP/1.1\r\nHost: x\r\nConnection: close\r\n\r\n");
    let resp = reply(server.handle_request(&req, &Verdict::Rejected, 0));
    let body = String::from_utf8_lossy(&resp.body);
    assert!(body.contains("\"status\":\"ok\""), "body: {body}");
}

#[test]
fn list_units_via_mcp_handle_request() {
    let mut server = server_with(1);
    let body = tool_call(1.0, "list_units", Json::obj(&[])).write_to_string();
    let raw = format!(
        "POST /mcp HTTP/1.1\r\nHost: x\r\nContent-Length: {}\r\n\r\n{}",
        body.len(),
        body
    );
    let resp = reply(server.handle_request(&request(raw.as_bytes()), &Verdict::Rejected, 0));
    let body = String::from_utf8_lossy(&resp.body);
    assert!(body.contains("\"units\""), "body: {body}");
    assert!(body.contains("\"id\":1") || body.contains("\"id\": 1"), "body: {body}");
}

#[test]
fn engage_autonomy_via_http_api_handle_request() {
    let mut server = server_with(1);
    let req = request(
        b"POST /api/units/1/engage_autonomy HTTP/1.1\r\nHost: x\r\nContent-Length: 0\r\n\r\n",
    );
    let resp = reply(server.handle_request(&req, &Verdict::Rejected, 0));
    let body = String::from_utf8_lossy(&resp.body);
    assert_eq!(resp.status, 200, "body: {body}");
    assert_eq!(server.fleet().get(1).unwrap().mode, Mode::Auto);
}

#[test]
fn gate_without_attestation_is_rejected_401() {
    let mut server = server_with(1);
    server.with_security();
    let req = request(b"POST /api/units/1/engage_autonomy HTTP/1.1\r\nContent-Length: 0\r\n\r\n");
    let resp = reply(server.handle_request(&req, &may(&["engage_autonomy"]), 0));
    assert_eq!(resp.status, 401, "no attestation must be rejected");
    assert_eq!(server.fleet().get(1).unwrap().mode, Mode::Assist);
}

#[test]
fn unenrolled_attestation_is_rejected_401() {
    let mut server = server_with(1);
    server.with_security();
    let header = attestation_header(&[0xAB; 32]);
    let raw = format!(
        "POST /api/units/1/engage_autonomy HTTP/1.1\r\n{header}\r\nContent-Length: 0\r\n\r\n"
    );
    let resp = reply(server.handle_request(&request(raw.as_bytes()), &Verdict::Rejected, 0));
    assert_eq!(resp.status, 401, "unenrolled unit must be rejected");
}

#[test]
fn operator_attestation_is_admitted_and_changes_mode() {
    let mut server = server_with(1);
    server.with_security();
    let header = attestation_header(&[0xBB; 32]);
    let raw = format!(
        "POST /api/units/1/engage_autonomy HTTP/1.1\r\n{header}\r\nContent-Length: 0\r\n\r\n"
    );
    let req = request(raw.as_bytes());
    assert_eq!(extract_attestation(&req), Some(vec![0xBB; 32]));
    let resp = reply(server.handle_request(&req, &may(&["engage_autonomy"]), 0));
    assert_eq!(resp.status, 200, "operator must be admitted: {:?}", String::from_utf8_lossy(&resp.body));
    assert_eq!(server.fleet().get(1).unwrap().mode, Mode::Auto);
}

#[test]
fn observer_cannot_engage_autonomy_403() {
    let mut server = server_with(3);
    server.with_security();
    let header = attestation_header(&[0xCC; 32]);
    let raw = format!(
        "POST /api/units/3/engage_autonomy HTTP/1.1\r\n{header}\r\nContent-Length: 0\r\n\r\n"
    );
    let resp = reply(server.handle_request(&request(raw.as_bytes()), &may(&[]), 0));
    assert_eq!(resp.status, 403, "observer lacks engage permission");
    assert_eq!(server.fleet().get(3).unwrap().mode, Mode::Assist);
}

#[test]
fn every_privileged_action_is_gated() {
    let mut server = server_with(3);
    server.with_security();
    let header = attestation_header(&[0xCC; 32]);
    let actions = [
        ("assign", "assign_unit", "{\"operator\":\"a\"}"),
        ("engage_autonomy", "engage_autonomy", ""),
        ("take_manual_control", "take_manual_control", ""),
        ("command", "send_control", "{\"mode\":\"AUTO\"}"),
    ];
    for (action, tool, body) in actions {
        let line = format!("POST /api/units/3/{action} HTTP/1.1\r\n");
        let tail = format!("Content-Length: {}\r\n\r\n{body}", body.len());
        let bare = format!("{line}{tail}");
        let resp = reply(server.handle_request(&request(bare.as_bytes()), &may(&[tool]), 0));
        assert_eq!(resp.status, 401, "{action}");
        let shown = format!("{line}{header}\r\n{tail}");
        let resp = reply(server.handle_request(&request(shown.as_bytes()), &Verdict::Rejected, 0));
        assert_eq!(resp.status, 401, "{action}");
        let resp = reply(server.handle_request(&request(shown.as_bytes()), &may(&[]), 0));
        assert_eq!(resp.status, 403, "{action}");
        let resp = reply(server.handle_request(&request(shown.as_bytes()), &may(&[tool]), 0));
        assert_eq!(resp.status, 200, "{action}");
    }
}

#[test]
fn refused_changes_are_conflicts() {
    let mut server = server_with(3);
    let raw = b"POST /api/units/9/engage_autonomy HTTP/1.1\r\nContent-Length: 0\r\n\r\n";
    let resp = reply(server.handle_request(&request(raw), &Verdict::Rejected, 0));
    assert_eq!(resp.status, 409);
    let bytes = resp.to_bytes();
    assert!(String::from_utf8_lossy(&bytes).starts_with("HTTP/1.1 409 Conflict\r\n"));
}

#[test]
fn tools_are_gated_over_the_tool_endpoint_too() {
    let mut server = server_with(1);
    server.with_security();
    let args = Json::obj(&[("unit_id", Json::uint(1))]);
    let body = tool_call(1.0, "engage_autonomy", args).write_to_string();
    let raw = format!("POST /mcp HTTP/1.1\r\nContent-Length: {}\r\n\r\n{}", body.len(), body);
    let resp = reply(server.handle_request(&request(raw.as_bytes()), &may(&[]), 0));
    assert_eq!(resp.status, 401);
    let header = attestation_header(&[1, 2, 3]);
    let raw = format!(
        "POST /mcp HTTP/1.1\r\n{header}\r\nContent-Length: {}\r\n\r\n{}",
        body.len(),
        body
    );
    let resp = reply(server.handle_request(&request(raw.as_bytes()), &may(&["list_units"]), 0));
    assert_eq!(resp.status, 403);
    assert_eq!(server.fleet().get(1).unwrap().mode, Mode::Assist);
    let resp =
        reply(server.handle_request(&request(raw.as_bytes()), &may(&["engage_autonomy"]), 0));
    assert_eq!(resp.status, 200);
    assert_eq!(server.fleet().get(1).unwrap().mode, Mode::Auto);
}

fn handshake_request(attestation: &[u8]) -> Request {
    let body = format!("{{\"attestation\":\"{}\",\"suites\":[1]}}", hex_encode(attestation));
    let raw = format!(
        "POST /api/units/1/secure/handshake HTTP/1.1\r\nContent-Length: {}\r\n\r\n{}",
        body.len(),
        body
    );
    request(raw.as_bytes())
}

#[test]
fn secure_handshake_bootstraps_a_session() {
    let mut server = server_with(1);
    server.with_security();
    let action = server.handle_request(&handshake_request(&[0x33; 40]), &Verdict::Rejected, 0);
    match action {
        Action::Handshake { unit, init } => {
            assert_eq!(unit, 1);
            assert_eq!(init.attestation, vec![0x33; 40]);
            assert_eq!(init.suites, vec![CipherSuite::Aes256Gcm]);
        }
        Action::Reply(r) => panic!("expected a handshake, got {}", r.status),
    }
    let done = HandshakeResult::Established {
        attestation: vec![9, 9],
        suite: CipherSuite::Aes256Gcm,
    };
    let resp = server.finish_handshake(1, done);
    assert_eq!(resp.status, 200, "handshake: {:?}", String::from_utf8_lossy(&resp.body));
    assert!(server.session(1), "session stored for unit 1");
}

#[test]
fn failed_handshakes_leave_no_session() {
    let mut server = server_with(1);
    server.with_security();
    let resp = server.finish_handshake(1, HandshakeResult::BadAttestation);
    assert_eq!(resp.status, 400);
    let resp = server.finish_handshake(1, HandshakeResult::Rejected("stale".to_string()));
    assert!(resp.status >= 400);
    assert!(!server.session(1));
}

#[test]
fn routes_and_ids() {
    assert_eq!(parse_unit_id("/api/units/17/mode"), Some(17));
    assert_eq!(parse_unit_id("/api//units//17"), Some(17));
    assert_eq!(parse_unit_id("/api/units/x"), None);
    assert_eq!(parse_unit_id("/units/17"), None);
    assert_eq!(unit_action("/api/units/17/mode").as_deref(), Some("mode"));
    let mut server = server_with(1);
    let resp = reply(server.handle_request(&request(b"GET /nowhere HTTP/1.1\r\n\r\n"), &Verdict::Rejected, 0));
    assert_eq!(resp.status, 404);
    let resp = reply(server.handle_request(&request(b"GET /api/units HTTP/1.1\r\n\r\n"), &Verdict::Rejected, 0));
    assert_eq!(resp.status, 200);
    let resp = reply(server.handle_request(&request(b"GET /api/units/9 HTTP/1.1\r\n\r\n"), &Verdict::Rejected, 0));
    assert_eq!(resp.status, 404);
}

#[test]
fn attestations_in_hexadecimal() {
    assert_eq!(hex_val(('f' as u32) as u8), Some(15));
    assert_eq!(hex_val(('g' as u32) as u8), None);
    assert_eq!(hex_encode(&[0, 255, 16]), "00ff10");
    assert_eq!(hex_decode("00ff10"), Some(vec![0, 255, 16]));
    assert_eq!(hex_decode("0"), None);
    assert_eq!(hex_decode("zz"), None);
    assert_eq!(suite_from_u8(suite_to_u8(CipherSuite::ChaCha20Poly1305)), Some(CipherSuite::ChaCha20Poly1305));
    assert_eq!(suite_from_u8(7), None);
}

#[test]
fn principals_use_their_tools() {
    let p = Principal { tools: vec!["engage_autonomy".to_string()] };
    assert!(authorize_tool(&p, "engage_autonomy"));
    assert!(!authorize_tool(&p, "assign_unit"));
    let with = request(b"GET / HTTP/1.1\r\nX-Tpt-Attestation: 0a\r\n\r\n");
    let without = request(b"GET / HTTP/1.1\r\n\r\n");
    let yes = may(&["engage_autonomy"]);
    assert!(authenticate_request(&yes, &with).is_ok());
    assert_eq!(authenticate_request(&yes, &without).err(), Some(401));
    assert_eq!(authenticate_request(&Verdict::Rejected, &with).err(), Some(401));
}

#[test]
fn handshakes_as_json() {
    let v = Json::parse(b"{\"attestation\":\"0a0b\",\"suites\":[2,1,9]}").unwrap();
    let init = handshake_init_from_json(&v).unwrap();
    assert_eq!(init.attestation, vec![10, 11]);
    assert!(handshake_init_from_json(&Json::Null).is_none());
    let text = handshake_resp_to_json(&[1, 2], CipherSuite::ChaCha20Poly1305).write_to_string();
    assert!(text.contains("\"0102\""), "{text}");
}

// --- Connections ---------------------------------------------------------------------

#[test]
fn connections_are_served_piece_by_piece() {
    let mut server = server_with(1);
    server.bound();
    let t = server.accept_conn(100).unwrap();
    assert_ne!(t, LISTENER_TOKEN);
    assert_eq!(server.register_pending(), vec![t]);
    server.mark_registered(t);
    assert!(server.register_pending().is_empty());
    assert!(matches!(server.service_conn(t, b"GET /api/he", false, 101), Service::Wait));
    match server.service_conn(t, b"alth HTTP/1.1\r\n\r\n", false, 102) {
        Service::Serve(req) => assert_eq!(req.path, "/api/health"),
        _ => panic!("expected a request"),
    }
    assert!(matches!(server.service_conn(77, b"", false, 103), Service::Unknown));
}

#[test]
fn bad_connections_are_closed() {
    let mut server = server_with(1);
    server.bound();
    let a = server.accept_conn(0).unwrap();
    assert!(matches!(server.service_conn(a, b"nonsense\r\n\r\n", false, 1), Service::Close));
    let b = server.accept_conn(0).unwrap();
    assert!(matches!(server.service_conn(b, b"", true, 1), Service::Close));
    let c = server.accept_conn(0).unwrap();
    let flood = vec![65u8; MAX_BUFFERED + 1];
    assert!(matches!(server.service_conn(c, &flood, false, 1), Service::Close));
    assert!(server.tokens().is_empty());
}

#[test]
fn connection_cap_and_idle_sweep() {
    let mut server: FleetServer<NullTransport, NullRecorder> = FleetServer::new(NullTransport);
    server.with_limits(ServerLimits { max_conns: 2, idle_timeout_ns: 50 });
    server.bound();
    let a = server.accept_conn(0).unwrap();
    let b = server.accept_conn(40).unwrap();
    assert!(server.accept_conn(41).is_none());
    assert!(matches!(server.service_conn(b, b"GET", false, 60), Service::Wait));
    assert_eq!(server.sweep_idle(80), vec![a]);
    assert_eq!(server.tokens(), vec![b]);
    assert!(server.accept_conn(81).is_some());
}
