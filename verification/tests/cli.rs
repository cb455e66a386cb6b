//! The command-line tool.
use tpt_teleop::analytics::record::{parse_entries, FdrEntry, FdrSink, FdrWriter, RecordKind};
use tpt_teleop::cli::command::{subcommand, usage, Subcommand};
use tpt_teleop::cli::console::{
    call_body, help_text, http_request, parse_args as console_args, parse_command, parse_reply,
    read_reply, show_reply, Command, ConsoleError, Session,
};
use tpt_teleop::cli::doctor::{collect, report, tool_version, Facts, Finding};
use tpt_teleop::cli::path::{rel_path, Part};
use tpt_teleop::cli::replay::{
    decode_line, parse_args as replay_args, parse_kind, replay, summary, unreadable, ReplayError,
    Step,
};
use tpt_teleop::cli::scaffold::{
    capitalize, done, parse_args as scaffold_args, project, ScaffoldError, Workspace,
};
use tpt_teleop::cli::sim::{
    final_line, parse_args as sim_args, tick_line, Readout, SimError, SimRun, OPENING,
};
use tpt_teleop::cloud::auth::{extract_attestation, hex_encode};
use tpt_teleop::cloud::http::{Method, Request, Response};
use tpt_teleop::cloud::json::Json;
use tpt_teleop::runtime::mode::Mode;
use tpt_teleop::runtime::ring::SpscRing;
use tpt_teleop::runtime::wire::{ControlCommand, GpsSample, ImuSample, TelemetryKind, TelemetryPacket};

fn strings(v: &[&str]) -> Vec<String> {
    v.iter().map(|s| s.to_string()).collect()
}

// --- Console -------------------------------------------------------------------------

#[test]
fn send_request_round_trips_status_and_body() {
    let body = r#"{"jsonrpc":"2.0","id":1,"result":{"count":0,"units":[]}}"#;
    let reply = format!(
        "HTTP/1.1 200 OK\r\ncontent-type: application/json\r\ncontent-length: {}\r\nconnection: close\r\n\r\n{}",
        body.len(),
        body
    );
    let (status, resp) = read_reply(reply.as_bytes());
    assert_eq!(status, 200);
    assert_eq!(resp, body);
}

#[test]
fn dispatch_prints_result_without_panicking() {
    let body = r#"{"jsonrpc":"2.0","id":1,"result":{"ok":true}}"#;
    let mut session = Session::new();
    assert_eq!(session.next_id(), 1);
    let req = session.request("host:1", None, "list_units", Json::obj(&[]));
    assert!(req.contains("\"id\":1"));
    let shown = show_reply(200, body);
    assert!(!shown.error);
    assert_eq!(session.next_id(), 2);
}

#[test]
fn console_requests_are_understood_by_the_server() {
    let mut session = Session::new();
    let args = Json::obj(&[("unit_id", Json::uint(7))]);
    let auth = hex_encode(&[0xde, 0xad, 0x01]);
    let sent = session.request("fleet.example:9000", Some(&auth), "engage_autonomy", args);
    let (req, total) = Request::parse(sent.as_bytes()).unwrap().unwrap();
    assert_eq!(total, sent.len());
    assert_eq!(req.method, Method::Post);
    assert_eq!(req.path, "/mcp");
    assert_eq!(extract_attestation(&req), Some(vec![0xde, 0xad, 0x01]));
    let v = Json::parse(&req.body).unwrap();
    let params = v.get("params").unwrap();
    assert_eq!(params.get("name").and_then(|n| n.as_str()), Some("engage_autonomy"));
    assert_eq!(
        http_request("h", None, "é"),
        "POST /mcp HTTP/1.1\r\nHost: h\r\nContent-Type: application/json\r\nContent-Length: 2\r\nConnection: close\r\n\r\né"
    );
}

#[test]
fn server_replies_are_understood_by_the_console() {
    for code in [200u16, 401, 404, 501, 65535] {
        let raw = Response::text(code, "blank\r\n\r\nlines é").to_bytes();
        assert_eq!(read_reply(&raw), (code, "blank\r\n\r\nlines é".to_string()));
    }
}

#[test]
fn odd_replies_are_read_as_far_as_possible() {
    assert_eq!(parse_reply("nonsense"), (0, String::new()));
    assert_eq!(parse_reply("HTTP/1.1 99999 X\r\n\r\nb"), (0, "b".to_string()));
    assert_eq!(read_reply(b"HTTP/1.1 200 OK\r\n\r\na\xffb").1, "a\u{fffd}b");
}

#[test]
fn console_commands() {
    assert!(matches!(parse_command("   "), Command::Nothing));
    assert!(matches!(parse_command("quit"), Command::Quit));
    assert!(matches!(parse_command(" exit "), Command::Quit));
    assert!(matches!(parse_command("help"), Command::Help));
    match parse_command("assign 7 kim") {
        Command::Call { tool, args } => {
            assert_eq!(tool, "assign_unit");
            assert_eq!(args.write_to_string(), "{\"unit_id\":7,\"operator\":\"kim\"}");
        }
        _ => panic!("expected a call"),
    }
    match parse_command("manual 3") {
        Command::Call { tool, .. } => assert_eq!(tool, "take_manual_control"),
        _ => panic!("expected a call"),
    }
    assert!(matches!(parse_command("auto x"), Command::BadUnit));
    assert!(matches!(parse_command("auto"), Command::Unrecognized));
    assert!(help_text().contains("assign <unit_id> <operator>"));
    assert_eq!(
        call_body(4, "list_units", Json::obj(&[])),
        "{\"jsonrpc\":\"2.0\",\"id\":4,\"method\":\"tools/call\",\"params\":{\"name\":\"list_units\",\"arguments\":{}}}"
    );
}

#[test]
fn console_arguments() {
    let plan = console_args(&strings(&["--host", "a:1", "--attestation", "f"]));
    assert_eq!(plan.host, Ok("a:1".to_string()));
    assert_eq!(plan.attestations, vec!["f"]);
    assert_eq!(console_args(&strings(&["--host"])).host, Err(ConsoleError::Host));
    assert_eq!(console_args(&strings(&["--attestation"])).host, Err(ConsoleError::Attestation));
    assert_eq!(
        console_args(&strings(&["x"])).host,
        Err(ConsoleError::Unrecognized("x".to_string()))
    );
    assert!(show_reply(500, "oops").error);
}

// --- Doctor --------------------------------------------------------------------------

fn facts() -> Facts {
    Facts {
        rustc: "rustc 1.90.0".to_string(),
        cargo: "cargo 1.90.0".to_string(),
        os: "linux".to_string(),
        arch: "x86_64".to_string(),
        cores: 8,
        deny: String::new(),
        workspace: true,
    }
}

#[test]
fn runs_without_panicking_and_reports_rustc() {
    let findings = collect(&facts());
    assert!(!findings.is_empty());
    let rustc = findings.iter().find(|f| f.name == "rustc").unwrap();
    assert!(rustc.ok, "rustc should be present in the test environment");
    let ws = findings.iter().find(|f| f.name == "workspace").unwrap();
    assert!(ws.ok, "workspace should be found from the crate test cwd");
}

#[test]
fn platform_and_cores_report_sensibly() {
    let findings = collect(&facts());
    let cores = findings.iter().find(|f| f.name == "cpu-cores").unwrap();
    assert!(cores.ok);
    assert!(cores.detail.parse::<usize>().is_err());
    let plat = findings.iter().find(|f| f.name == "platform").unwrap();
    assert!(plat.detail.contains("linux"));
}

#[test]
fn doctor_reports() {
    let (lines, code) = report(&collect(&facts()));
    assert_eq!(code, 0);
    assert_eq!(lines[0], "tpt-teleop doctor — environment check\n");
    assert_eq!(lines[1], "  [  ok] rustc        rustc 1.90.0");
    assert!(lines[5].starts_with("  [warn] cargo-deny   not installed"));
    assert_eq!(lines[7], "\n5 check(s) passed, 1 warning(s), 0 failure(s)");
    assert_eq!(lines[8], "doctor: environment looks ready");
    let mut bad = facts();
    bad.rustc = String::new();
    bad.workspace = false;
    let (lines, code) = report(&collect(&bad));
    assert_eq!(code, 1);
    assert_eq!(lines[1], "  [FAIL] rustc        rustc not found on PATH — install Rust >= 1.85");
    assert_eq!(lines[7], "\n3 check(s) passed, 1 warning(s), 2 failure(s)");
    let (_, code) = report(&[Finding::warn("x", "y".to_string()), Finding::pass("z", String::new())]);
    assert_eq!(code, 0);
    let (_, code) = report(&[Finding::fail("x", "y".to_string())]);
    assert_eq!(code, 1);
}

#[test]
fn tool_versions() {
    assert_eq!(tool_version(Some(b" rustc 1.90.0 \n")), "rustc 1.90.0");
    assert_eq!(tool_version(Some(b"\xff")), "");
    assert_eq!(tool_version(None), "");
}

// --- Replay --------------------------------------------------------------------------

fn sample_recording() -> Vec<u8> {
    let mut sink = FdrSink::new(SpscRing::with_capacity(64));
    let mut writer = FdrWriter::open(false);
    let cmd = ControlCommand::zeroed(Mode::FullTeleop);
    sink.try_control(&cmd).unwrap();
    let imu = ImuSample::zeroed(1, 100);
    sink.try_imu(&imu).unwrap();
    let gps = GpsSample::zeroed(2, 200);
    sink.try_gps(&gps).unwrap();
    let tel = TelemetryPacket::zeroed(TelemetryKind::Battery, 3, 300);
    sink.try_telemetry(&tel).unwrap();
    let (_, mut file) = writer.drain_once(&mut sink);
    file.extend_from_slice(&writer.finish());
    file
}

#[test]
fn replay_decodes_every_frame_kind() {
    let bytes = sample_recording();
    let entries = parse_entries(&bytes);
    assert_eq!(entries.len(), 4);

    let t0 = entries[0].timestamp_ns;
    for (i, e) in entries.iter().enumerate() {
        let line = decode_line(i, e, t0);
        assert!(!line.contains("<malformed>"), "line: {line}");
    }

    let args = replay_args(&strings(&["f.bin"])).unwrap();
    let lines = printed(&replay(&args, &entries));
    assert_eq!(lines.len(), 8);
    assert_eq!(lines[0], "== f.bin ==");
    assert_eq!(lines[2], "---");
    assert!(lines[3].contains("CONTROL") && lines[6].contains("TELEMETRY"));
    assert_eq!(lines[7], "-- 4 frame(s) shown --");

    let args = replay_args(&strings(&["f.bin", "--kind", "imu", "--limit", "1"])).unwrap();
    let lines = printed(&replay(&args, &entries));
    assert_eq!(lines.len(), 5);
    assert!(lines[3].contains("IMU"), "{}", lines[3]);
    assert_eq!(lines[4], "-- 1 frame(s) shown --");
    assert_eq!(printed(&replay(&args, &[])), vec!["f.bin: no frames"]);
}

fn printed(steps: &[Step]) -> Vec<String> {
    steps
        .iter()
        .filter_map(|s| match s {
            Step::Print(line) => Some(line.clone()),
            Step::Sleep(_) => None,
        })
        .collect()
}

#[test]
fn replay_lines_in_full() {
    let cmd = ControlCommand {
        seq: 12,
        axes: [0.5f32, -1.0, 0.0, 1e-7, 2.5e20, 3.0].map(f32::to_bits),
        ..ControlCommand::zeroed(Mode::Auto)
    };
    let e = FdrEntry::new(
        RecordKind::Control,
        &tpt_teleop::runtime::wire::bytes_of(&cmd),
        2_500_000,
    )
    .unwrap();
    assert_eq!(
        decode_line(3, &e, 1_000_000),
        format!(
            "[{:>6}] t=+{:>10.3}ms CONTROL   seq={:<6} mode={:<12} ai={:<5} axes={:?}",
            3,
            1.5f64,
            12,
            "AUTO",
            false,
            [0.5f32, -1.0, 0.0, 1e-7, 2.5e20, 3.0]
        )
    );
    let short = FdrEntry::new(RecordKind::Gps, &[1, 2, 3], 0).unwrap();
    assert!(decode_line(0, &short, 0).contains("GPS       <malformed>"));
}

#[test]
fn replay_keeps_the_recorded_pace() {
    let a = FdrEntry::new(RecordKind::Imu, &[0; 48], 1_000_000).unwrap();
    let b = FdrEntry::new(RecordKind::Imu, &[0; 48], 5_000_000).unwrap();
    let args = replay_args(&strings(&["f", "--speed", "2"])).unwrap();
    let steps = replay(&args, &[a, b]);
    let waits: Vec<u64> = steps
        .iter()
        .filter_map(|s| match s {
            Step::Sleep(ns) => Some(*ns),
            Step::Print(_) => None,
        })
        .collect();
    assert_eq!(waits, vec![2_000_000]);
    let text = summary(&[a, b]);
    assert!(text.contains('2'), "{text}");
}

#[test]
fn frames_that_are_not_shown_may_be_overlong() {
    let good = FdrEntry::new(RecordKind::Imu, &[0; 48], 1).unwrap();
    let mut bad = FdrEntry::new(RecordKind::Gps, &[0; 64], 2).unwrap();
    bad.payload_len = 513;
    let entries = [good, bad, good];
    let all = replay_args(&strings(&["f"])).unwrap();
    assert_eq!(unreadable(&all, &entries), Some(1));
    let imu = replay_args(&strings(&["f", "--kind", "imu"])).unwrap();
    assert_eq!(unreadable(&imu, &entries), None);
    assert_eq!(printed(&replay(&imu, &entries)).last().unwrap(), "-- 2 frame(s) shown --");
    let one = replay_args(&strings(&["f", "--limit", "1"])).unwrap();
    assert_eq!(unreadable(&one, &entries), None);
    assert_eq!(printed(&replay(&one, &entries)).last().unwrap(), "-- 1 frame(s) shown --");
    bad.kind = 77;
    assert_eq!(unreadable(&all, &[bad]), None);
}

#[test]
fn missing_file_argument_is_an_error() {
    assert_eq!(replay_args(&[]).err(), Some(ReplayError::Usage));
}

#[test]
fn bad_kind_flag_is_an_error() {
    assert_eq!(
        replay_args(&strings(&["f.bin", "--kind", "bogus"])).err(),
        Some(ReplayError::Kind)
    );
}

#[test]
fn replay_arguments() {
    assert_eq!(parse_kind("control"), Some(RecordKind::Control));
    assert_eq!(parse_kind("telemetry"), Some(RecordKind::Telemetry));
    assert_eq!(parse_kind("end"), None);
    assert_eq!(replay_args(&strings(&["f", "--speed", "0"])).err(), Some(ReplayError::Speed));
    assert_eq!(replay_args(&strings(&["f", "--speed", "x"])).err(), Some(ReplayError::Speed));
    assert_eq!(replay_args(&strings(&["f", "--limit"])).err(), Some(ReplayError::Limit));
    assert_eq!(
        replay_args(&strings(&["f", "g"])).err(),
        Some(ReplayError::Unrecognized("g".to_string()))
    );
    let a = replay_args(&strings(&["f", "--speed", "1.5", "--limit", "3"])).unwrap();
    assert_eq!(a.path, "f");
    assert_eq!(a.speed.map(f64::from_bits), Some(1.5));
    assert_eq!(a.limit, Some(3));
}

// --- Simulator -----------------------------------------------------------------------

#[test]
fn rejects_bad_arguments() {
    assert_eq!(sim_args(&strings(&["--ticks", "notanumber"])), Err(SimError::Ticks));
    assert_eq!(
        sim_args(&strings(&["--bogus"])),
        Err(SimError::Unrecognized("--bogus".to_string()))
    );
}

#[test]
fn simulator_arguments() {
    let d = sim_args(&[]).unwrap();
    assert_eq!((d.ticks, f64::from_bits(d.rate_hz)), (200, 20.0));
    assert_eq!((f32::from_bits(d.throttle), f32::from_bits(d.roll)), (0.55, 0.0));
    let a = sim_args(&strings(&["--rate", "0.5", "--throttle", "1.5", "--roll", "-0.25"])).unwrap();
    assert_eq!(f64::from_bits(a.rate_hz), 1.0);
    assert_eq!(f32::from_bits(a.throttle), 1.0);
    assert_eq!(f32::from_bits(a.roll), -0.25);
    let a = sim_args(&strings(&["--rate", "nan", "--throttle", "-3", "--ticks", "7"])).unwrap();
    assert_eq!(f64::from_bits(a.rate_hz), 1.0);
    assert_eq!(f32::from_bits(a.throttle), 0.0);
    assert_eq!(a.ticks, 7);
    assert_eq!(sim_args(&strings(&["--rate"])), Err(SimError::Rate));
    assert_eq!(sim_args(&strings(&["--throttle", "x"])), Err(SimError::Throttle));
    assert_eq!(sim_args(&strings(&["--roll", ""])), Err(SimError::Roll));
}

#[test]
fn simulator_lines() {
    let (x, y, z) = (1.005f64, -20.5f64, 3.14159f64);
    let (r, t) = (0.1234f32, 0.5f32);
    assert_eq!(
        tick_line(42, x.to_bits(), y.to_bits(), z.to_bits(), r.to_bits(), t.to_bits(), 41),
        format!("{:>4} | {:>8.2} {:>8.2} {:>8.2} | {:>8.3} {:>10.3} | {}", 42, x, y, z, r, t, 41)
    );
    assert_eq!(
        final_line(x.to_bits(), y.to_bits(), z.to_bits(), 41),
        format!("\nfinal pose: x={:.2} y={:.2} z={:.2}  routed={}", x, y, z, 41)
    );
}

#[test]
fn simulator_runs_its_ticks() {
    assert!(OPENING.starts_with("tpt-teleop simulator"));
    let mut run = SimRun::new(2);
    let at = Readout {
        x: 1.0f64.to_bits(),
        y: 2.0f64.to_bits(),
        z: 3.0f64.to_bits(),
        routed: 7,
    };
    assert_eq!(run.coming(), Some(0));
    let roll = 0.25f32.to_bits();
    let thr = 0.5f32.to_bits();
    let first = run.report(roll, thr);
    assert_eq!((first.seq, first.buttons, first.timestamp_ns), (0, 0, 0));
    assert_eq!(first.axes, [roll, 0, 0, thr, 0, 0, 0, 0]);
    let line = run.stepped(None, at);
    assert_eq!(line, tick_line(0, at.x, at.y, at.z, 0, 0, 7));
    assert_eq!(run.coming(), Some(1));
    let second = run.report(roll, thr);
    assert_eq!((second.seq, second.timestamp_ns), (1, 5_000_000));
    let line = run.stepped(Some((roll, thr)), at);
    assert_eq!(line, "   1 |     1.00     2.00     3.00 |    0.250      0.500 | 7");
    assert_eq!(run.coming(), None);
}

// --- Scaffold ------------------------------------------------------------------------

#[test]
fn names_are_capitalized() {
    assert_eq!(capitalize("demo_bot"), "DemoBot");
    assert_eq!(capitalize("my-bot"), "MyBot");
    assert_eq!(capitalize("__"), "Bot");
    assert_eq!(capitalize("éclair_ß9"), "ÉclairSS9");
}

fn rooted(names: &[&str]) -> Vec<Part> {
    let mut v = vec![Part::Root];
    v.extend(named(names));
    v
}

fn named(names: &[&str]) -> Vec<Part> {
    names.iter().map(|n| Part::Name(n.to_string())).collect()
}

fn on_drive(drive: &str, names: &[&str]) -> Vec<Part> {
    let mut v = vec![Part::Prefix(drive.to_string())];
    v.extend(rooted(names));
    v
}

#[test]
fn relative_paths() {
    let way = |a: &[Part], b: &[Part]| rel_path(a, b).unwrap();
    assert_eq!(
        way(&rooted(&["w", "out", "bot"]), &rooted(&["w", "crates", "core"])),
        "../../crates/core"
    );
    assert_eq!(way(&rooted(&["w", "a"]), &rooted(&["w", "a"])), ".");
    assert_eq!(way(&rooted(&["w"]), &rooted(&["w", "a", "b"])), "a/b");
    assert_eq!(way(&rooted(&["w", "a", "b"]), &rooted(&["w"])), "../..");
    assert_eq!(way(&rooted(&["w"]), &rooted(&["w", "a\\b"])), "a/b");
    assert_eq!(way(&named(&["bot"]), &rooted(&["w"])), "/w");
}

#[test]
fn relative_paths_on_drives() {
    let way = |a: &[Part], b: &[Part]| rel_path(a, b).unwrap();
    assert_eq!(
        way(&on_drive("C:", &["ws", "sub", "bot"]), &on_drive("C:", &["ws", "crates", "core"])),
        "../../crates/core"
    );
    assert_eq!(way(&on_drive("C:", &["a"]), &on_drive("D:", &["b", "c"])), "D:/b/c");
    assert_eq!(
        way(&on_drive("C:", &["a"]), &on_drive("\\\\host\\share", &["b"])),
        "//host/share/b"
    );
}

#[test]
fn scaffold_arguments() {
    let a = scaffold_args(&strings(&["bot", "--path", "out"])).unwrap();
    assert_eq!((a.name.as_str(), a.path.as_deref()), ("bot", Some("out")));
    let a = scaffold_args(&strings(&["--path=x y", "b-1_c"])).unwrap();
    assert_eq!((a.name.as_str(), a.path.as_deref()), ("b-1_c", Some("x y")));
    assert_eq!(scaffold_args(&strings(&["b", "--path"])).err(), Some(ScaffoldError::PathValue));
    assert_eq!(scaffold_args(&[]).err(), Some(ScaffoldError::NameMissing));
    assert_eq!(scaffold_args(&strings(&["b b"])).err(), Some(ScaffoldError::NameIllegal));
    assert_eq!(
        scaffold_args(&strings(&["a", "b"])).err(),
        Some(ScaffoldError::Unexpected("b".to_string()))
    );
    assert_eq!(
        scaffold_args(&strings(&["--x"])).err(),
        Some(ScaffoldError::Unexpected("--x".to_string()))
    );
}

#[test]
fn projects_are_filled_in() {
    let w = Workspace {
        core: rooted(&["w", "crates", "tpt-t-core"]),
        ring: rooted(&["w", "crates", "tpt-t-ring"]),
        macros: rooted(&["w", "crates", "tpt-t-macros"]),
    };
    let p = project("demo_bot", &rooted(&["w", "robots", "demo_bot"]), Some(&w));
    assert!(p.cargo_toml.contains("name = \"demo_bot\""));
    assert!(p.cargo_toml.contains("tpt-t-core = { path = \"../../crates/tpt-t-core\" }"));
    assert!(p.cargo_toml.contains("tpt-t-macros = { path = \"../../crates/tpt-t-macros\" }"));
    assert!(p.main_rs.contains("pub struct DemoBot {"));
    assert!(!p.cargo_toml.contains("__") && !p.main_rs.contains("__"));
    assert!(p.cargo_toml.contains("tpt-t-ring = { path = \"../../crates/tpt-t-ring\" }"));
    let q = project("b", &named(&["out", "b"]), None);
    assert!(q.cargo_toml.contains("\"../crates/tpt-t-ring\""));
    assert_eq!(
        done("b", "out/b"),
        "scaffolded robot \"b\" at out/b\n\nnext steps:\n\tcd out/b\n\tcargo build\n\t# wire your Camera/Motor types and run with `cargo run --release`"
    );
}

// --- Subcommands ---------------------------------------------------------------------

#[test]
fn subcommands_by_name() {
    assert_eq!(subcommand(&[]), Subcommand::Help);
    assert_eq!(subcommand(&strings(&["scaffold", "x"])), Subcommand::Scaffold);
    assert_eq!(subcommand(&strings(&["deny"])), Subcommand::Deny);
    assert_eq!(subcommand(&strings(&["profile"])), Subcommand::Profile);
    assert_eq!(subcommand(&strings(&["replay"])), Subcommand::Replay);
    assert_eq!(subcommand(&strings(&["console"])), Subcommand::Console);
    assert_eq!(subcommand(&strings(&["doctor"])), Subcommand::Doctor);
    assert_eq!(subcommand(&strings(&["sim"])), Subcommand::Sim);
    assert_eq!(subcommand(&strings(&["-h"])), Subcommand::Help);
    assert_eq!(subcommand(&strings(&["bogus"])), Subcommand::Unknown("bogus".to_string()));
    assert!(usage().starts_with("tpt-t-cli v1.0.0 — tpt-teleop developer tooling\n\nUSAGE:\n"));
}
