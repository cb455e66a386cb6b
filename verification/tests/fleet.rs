//! Units, modes, fan-out and session recordings.
use tpt_teleop::cloud::error::{transport_err, CloudError};
use tpt_teleop::cloud::fleet::{
    make_command, parse_mode, CapturingTransport, Fleet, NullTransport, UnitTransport,
};
use tpt_teleop::cloud::recorder::{
    encode_frame, read_frames, recording_header, Frame, NullRecorder, RecordedFrame, Recorder,
    VecRecorder, HEADER_LEN, LINK_MAX_PAYLOAD, REC_MAGIC,
};
use tpt_teleop::cloud::sfu::{negotiate_webrtc_stub, MediaFrame, SfuFanout, MAX_MEDIA};
use tpt_teleop::runtime::mode::Mode;
use tpt_teleop::runtime::wire::ControlCommand;
use tpt_teleop::text::Text;

fn addr() -> String {
    "127.0.0.1:5000".to_string()
}

/// A transport whose peer is gone.
struct DeadTransport;

impl UnitTransport for DeadTransport {
    fn sends(_: Self, _: Self, _: Text, _: ControlCommand, _: Result<(), Text>) -> bool {
        true
    }

    fn send_command(&mut self, _addr: &str, _cmd: &ControlCommand) -> Result<(), String> {
        Err("unreachable".to_string())
    }
}

/// A recorder whose disk is full.
struct FullRecorder;

impl Recorder for FullRecorder {
    fn count(&self) -> u64 {
        0
    }

    fn records(_: Self, _: Self, _: Frame, _: Result<(), String>) -> bool {
        true
    }

    fn record(&mut self, _channel: u8, _seq: u64, _payload: &[u8]) -> Result<(), String> {
        Err("no space left".to_string())
    }

    fn frames(&self) -> u64 {
        0
    }
}

// --- Units ---------------------------------------------------------------------------

#[test]
fn register_and_list() {
    let mut f = Fleet::new(NullTransport);
    f.register_unit(7, addr(), VecRecorder::new(), 1).unwrap();
    assert_eq!(f.list_units().len(), 1);
    assert_eq!(f.get(7).unwrap().id, 7);
    assert!(f.register_unit(7, addr(), VecRecorder::new(), 2).is_err());
}

#[test]
fn registering_twice_names_the_unit() {
    let mut f = Fleet::new(NullTransport);
    f.register_unit(7, addr(), VecRecorder::new(), 1).unwrap();
    match f.register_unit(7, "elsewhere".to_string(), VecRecorder::new(), 2) {
        Err(e) => {
            assert!(matches!(e, CloudError::AlreadyExists(7)));
            assert_eq!(e.message(), "unit 7 already exists");
        }
        Ok(()) => panic!("expected a refusal"),
    }
    assert_eq!(f.unit_count(), 1);
    assert_eq!(f.get(7).unwrap().addr, addr());
}

#[test]
fn assign_operator() {
    let mut f = Fleet::new(NullTransport);
    f.register_unit(1, addr(), VecRecorder::new(), 0).unwrap();
    f.assign(1, "op-42".into()).unwrap();
    assert_eq!(f.get(1).unwrap().assigned_operator.as_deref(), Some("op-42"));
    assert!(matches!(f.assign(2, "op-42".into()), Err(CloudError::NotFound(2))));
}

#[test]
fn set_mode_direct_and_staged() {
    let mut f = Fleet::new(CapturingTransport::new());
    f.register_unit(1, addr(), VecRecorder::new(), 0).unwrap();
    f.set_mode(1, Mode::Auto, 10).unwrap();
    assert_eq!(f.get(1).unwrap().mode, Mode::Auto);
    f.set_mode(1, Mode::FullTeleop, 11).unwrap();
    assert_eq!(f.get(1).unwrap().mode, Mode::FullTeleop);
    let sent = &f.transport_ref().sent;
    assert_eq!(sent.len(), 3, "Assist->Auto then Auto->Assist->FullTeleop");
    assert_eq!(sent[1].1.mode(), Some(Mode::Assist));
    assert_eq!(sent[2].1.mode(), Some(Mode::FullTeleop));
}

#[test]
fn staged_transition_routes_through_assist() {
    let mut f = Fleet::new(CapturingTransport::new());
    f.register_unit(1, addr(), VecRecorder::new(), 0).unwrap();
    f.set_mode(1, Mode::Auto, 10).unwrap();
    f.set_mode(1, Mode::FullTeleop, 11).unwrap();
    assert_eq!(f.get(1).unwrap().mode, Mode::FullTeleop);
    let sent = &f.transport_ref().sent;
    assert_eq!(sent.len(), 3, "staged transitions emit one command per segment");
    assert_eq!(sent[1].1.mode(), Some(Mode::Assist));
    assert_eq!(sent[2].1.mode(), Some(Mode::FullTeleop));
}

#[test]
fn emergency_stop_exits_only_through_assist() {
    let mut f = Fleet::new(CapturingTransport::new());
    f.register_unit(1, addr(), VecRecorder::new(), 0).unwrap();
    f.set_mode(1, Mode::EmergencyStop, 1).unwrap();
    assert_eq!(f.get(1).unwrap().mode, Mode::EmergencyStop);
    f.set_mode(1, Mode::FullTeleop, 2).unwrap();
    assert_eq!(f.get(1).unwrap().mode, Mode::FullTeleop);
    assert_eq!(f.transport_ref().sent[1].1.mode(), Some(Mode::Assist));
}

#[test]
fn commands_go_to_the_unit_in_sequence() {
    let mut f = Fleet::new(CapturingTransport::new());
    f.register_unit(1, addr(), VecRecorder::new(), 0).unwrap();
    f.engage_autonomy(1, 5).unwrap();
    f.take_manual_control(1, 6).unwrap();
    assert_eq!(f.get(1).unwrap().mode, Mode::FullTeleop);
    let sent = &f.transport_ref().sent;
    assert!(sent.iter().all(|(to, _)| *to == addr()));
    assert!(sent.windows(2).all(|w| w[0].1.seq < w[1].1.seq));
    // Asking for the mode that it is in sends nothing.
    let n = sent.len();
    f.take_manual_control(1, 7).unwrap();
    assert_eq!(f.transport_ref().sent.len(), n);
    assert!(matches!(f.set_mode(9, Mode::Auto, 8), Err(CloudError::NotFound(9))));
}

#[test]
fn a_dead_peer_keeps_its_mode() {
    let mut f = Fleet::new(DeadTransport);
    f.register_unit(1, addr(), VecRecorder::new(), 0).unwrap();
    match f.set_mode(1, Mode::Auto, 1) {
        Err(e) => {
            assert!(matches!(e, CloudError::Transport(_)));
            assert!(e.message().starts_with("transport error: "));
            assert!(e.message().contains("unreachable"));
        }
        Ok(()) => panic!("expected a failure"),
    }
    assert_eq!(f.get(1).unwrap().mode, Mode::Assist);
}

#[test]
fn commands_carry_mode_and_time() {
    let c = make_command(Mode::Auto, 9, 77);
    assert_eq!((c.mode(), c.seq, c.timestamp_ns), (Some(Mode::Auto), 9, 77));
}

#[test]
fn mode_names_are_read() {
    assert_eq!(parse_mode("AUTO"), Some(Mode::Auto));
    assert_eq!(parse_mode("assist"), Some(Mode::Assist));
    assert_eq!(parse_mode("nonsense"), None);
}

#[test]
fn ingest_records_and_routes() {
    let mut f = Fleet::new(NullTransport);
    f.register_unit(1, addr(), VecRecorder::new(), 0).unwrap();
    let sub = f.attach_subscriber(1, 16).unwrap();
    f.ingest(1, addr(), 2, 9, b"telemetry-bytes", VecRecorder::new(), 1).unwrap();
    assert_eq!(f.get(1).unwrap().last_seq, 9);
    assert_eq!(f.get(1).unwrap().recorder.frames(), 1);
    let got = f.receive(1, sub).unwrap();
    assert_eq!(got.seq, 9);
    assert_eq!(got.bytes(), b"telemetry-bytes");
}

#[test]
fn ingest_auto_provisions_unknown_unit() {
    let mut f = Fleet::new(NullTransport);
    f.ingest(99, addr(), 3, 1, b"x", VecRecorder::new(), 1).unwrap();
    assert!(f.get(99).is_some());
    assert_eq!(f.get(99).unwrap().recorder.frames(), 1);
}

#[test]
fn ingest_reports_a_full_disk() {
    let mut f = Fleet::new(NullTransport);
    f.register_unit(1, addr(), FullRecorder, 0).unwrap();
    let r = f.ingest(1, addr(), 3, 1, b"x", FullRecorder, 1);
    match r {
        Err(e) => assert_eq!(e.message(), "recorder error: no space left"),
        Ok(()) => panic!("expected a failure"),
    }
}

#[test]
fn subscribers_come_and_go() {
    let mut f = Fleet::new(NullTransport);
    f.register_unit(1, addr(), NullRecorder::new(), 0).unwrap();
    let a = f.attach_subscriber(1, 4).unwrap();
    let b = f.attach_subscriber(1, 4).unwrap();
    assert_ne!(a, b);
    assert!(matches!(f.subscriber_count(1), Ok(2)));
    f.detach_subscriber(1, a);
    assert!(matches!(f.subscriber_count(1), Ok(1)));
    assert!(f.subscriber_count(8).is_err());
    assert!(f.attach_subscriber(8, 4).is_err());
    assert_eq!(f.list_units()[0].subscribers, 1);
}

#[test]
fn recordings_go_to_the_record_directory() {
    let mut f: Fleet<NullTransport, NullRecorder> = Fleet::new(NullTransport);
    assert_eq!(f.recording_path(5), None);
    f.set_record_dir("/var/rec".to_string());
    assert_eq!(f.recording_path(5), Some("/var/rec/unit-5.tptr".to_string()));
}

#[test]
fn unit_snapshots_as_json() {
    let mut f = Fleet::new(NullTransport);
    f.register_unit(3, addr(), NullRecorder::new(), 42).unwrap();
    let text = f.list_units()[0].to_json().write_to_string();
    assert!(text.starts_with("{\"id\":3,\"addr\":\"127.0.0.1:5000\",\"mode\":\"ASSIST\""), "{text}");
}

// --- Fan-out -------------------------------------------------------------------------

#[test]
fn media_frame_carries_payload() {
    let f = MediaFrame::new(3, 17, b"frame-data");
    assert_eq!(f.channel, 3);
    assert_eq!(f.seq, 17);
    assert_eq!(f.bytes(), b"frame-data");
}

#[test]
fn publish_fans_out_to_live_subscribers() {
    let mut sfu = SfuFanout::new();
    let a = sfu.subscribe(16);
    let b = sfu.subscribe(16);
    let delivered = sfu.publish(MediaFrame::new(2, 5, b"hello"));
    assert_eq!(delivered, 2);
    assert_eq!(sfu.receive(a).unwrap().bytes(), b"hello");
    assert_eq!(sfu.receive(b).unwrap().bytes(), b"hello");
    assert_eq!(sfu.subscriber_count(), 2);
}

#[test]
fn subscriber_ids_count_up() {
    let mut sfu = SfuFanout::new();
    assert_eq!((sfu.subscribe(2), sfu.subscribe(2)), (1, 2));
    let mut sfu = SfuFanout::default();
    assert_eq!((sfu.subscribe(2), sfu.subscribe(2)), (0, 1));
}

#[test]
fn dropped_subscriber_is_pruned() {
    let mut sfu = SfuFanout::new();
    let id = sfu.subscribe(8);
    let _ = sfu.publish(MediaFrame::new(1, 1, b"x"));
    assert_eq!(sfu.subscriber_count(), 1);
    sfu.detach(id);
    assert_eq!(sfu.publish(MediaFrame::new(1, 2, b"y")), 0);
    assert_eq!(sfu.subscriber_count(), 0);
    sfu.unsubscribe(id);
}

#[test]
fn congestion_drops_for_full_ring_only() {
    let mut sfu = SfuFanout::new();
    let a = sfu.subscribe(2);
    assert_eq!(sfu.publish(MediaFrame::new(1, 1, b"1")), 1);
    assert_eq!(sfu.publish(MediaFrame::new(1, 2, b"2")), 1);
    assert_eq!(sfu.publish(MediaFrame::new(1, 3, b"3")), 0);
    assert_eq!(sfu.pending(a), Some(2));
    let b = sfu.subscribe(2);
    assert_eq!(sfu.publish(MediaFrame::new(1, 4, b"4")), 1);
    assert_eq!(sfu.pending(b), Some(1));
}

#[test]
fn negotiation_stub_fails_loudly() {
    assert!(negotiate_webrtc_stub().is_err());
}

#[test]
fn oversize_media_is_cut() {
    let big = vec![7u8; MAX_MEDIA + 10];
    assert_eq!(MediaFrame::new(1, 1, &big).bytes().len(), MAX_MEDIA);
}

// --- Recordings ----------------------------------------------------------------------

#[test]
fn null_recorder_counts() {
    let mut r = NullRecorder::new();
    r.record(1, 7, b"abc").unwrap();
    r.record(2, 8, b"defg").unwrap();
    assert_eq!(r.frames(), 2);
}

#[test]
fn vec_recorder_roundtrips() {
    let mut r = VecRecorder::new();
    r.record(3, 11, b"payload").unwrap();
    assert_eq!(r.frames(), 1);
    assert_eq!(r.frames[0], (3, 11, b"payload".to_vec()));
}

#[test]
fn file_recorder_writes_and_reads_back() {
    let mut file = recording_header(99);
    file.extend_from_slice(&encode_frame(1, 1, b"alpha").unwrap());
    file.extend_from_slice(&encode_frame(2, 42, b"beta-beta").unwrap());
    let frames = read_frames(&file).unwrap();
    assert_eq!(frames.len(), 2);
    assert_eq!(
        frames[0],
        RecordedFrame { channel: 1, seq: 1, payload: b"alpha".to_vec() }
    );
    assert_eq!(
        frames[1],
        RecordedFrame { channel: 2, seq: 42, payload: b"beta-beta".to_vec() }
    );
}

#[test]
fn file_recorder_rejects_oversize() {
    let big = vec![0u8; LINK_MAX_PAYLOAD + 1];
    assert!(encode_frame(3, 0, &big).is_err());
    assert!(encode_frame(3, 0, &big[1..]).is_ok());
}

#[test]
fn broken_recordings_are_refused() {
    let good = recording_header(1);
    assert_eq!(good.len(), HEADER_LEN);
    assert_eq!(&good[..8], &REC_MAGIC.to_le_bytes());
    assert_eq!(read_frames(&good[..17]).err().as_deref(), Some("file too short"));
    assert_eq!(read_frames(&[0; 18]).err().as_deref(), Some("bad recording magic"));
    let mut cut = good.clone();
    let frame = encode_frame(1, 2, b"abc").unwrap();
    cut.extend_from_slice(&frame[..frame.len() - 1]);
    assert_eq!(read_frames(&cut).err().as_deref(), Some("truncated frame"));
    // Fewer bytes than the head of a frame are left aside.
    let mut tail = good.clone();
    tail.extend_from_slice(&frame[..12]);
    assert_eq!(read_frames(&tail).unwrap().len(), 0);
}

#[test]
fn errors_in_words() {
    assert_eq!(CloudError::Io("x".to_string()).message(), "io error: x");
    assert_eq!(CloudError::Json("x".to_string()).message(), "json error: x");
    assert_eq!(CloudError::Http("x".to_string()).message(), "http error: x");
    assert_eq!(CloudError::NotFound(4).message(), "unit 4 not found");
    let e = CloudError::ModeDisallowed { from: Mode::Auto, to: Mode::FullTeleop };
    assert_eq!(e.message(), "mode transition AUTO -> TELEOP not permitted");
    assert_eq!(CloudError::Unsupported("x").message(), "unsupported: x");
    assert!(transport_err("here", "lost").message().contains("here"));
}
