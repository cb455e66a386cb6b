//! Devices: CAN, registers, camera, drone input and MAVLink.
use tpt_teleop::hal::camera::{Camera, NullCamera};
use tpt_teleop::hal::can::{can_pair, from_raw, to_raw, CanBus, CanLink, End, StubCan, CAN_EFF_FLAG};
use tpt_teleop::hal::drone::CommandInput;
use tpt_teleop::hal::ids;
use tpt_teleop::hal::mavlink::{
    decode_attitude, decode_heartbeat, dialect_for, frame_len, le_u32, mav_crc16, parse_frame, MavError,
    MavParser, MAVLINK_1_MAGIC, MAVLINK_2_MAGIC,
};
use tpt_teleop::hal::mmio::{BufferMmio, Mmio};
use tpt_teleop::hal::types::{CanFrame, FrameInfo, HalError, PixelFormat};

// --- CAN -----------------------------------------------------------------------------

#[test]
fn bidirectional_roundtrip() {
    let mut link = can_pair(8);

    link.send(End::A, &CanFrame::new(ids::MOTOR_CMD, &[1, 2, 3, 4])).unwrap();
    link.send(End::B, &CanFrame::new(ids::IMU_DATA, &[9])).unwrap();

    let mut out = CanFrame::new(0, &[]);
    assert!(link.recv(End::B, &mut out));
    assert_eq!((out.id, out.payload()), (ids::MOTOR_CMD, &[1u8, 2, 3, 4][..]));
    assert!(link.recv(End::A, &mut out));
    assert_eq!((out.id, out.payload()), (ids::IMU_DATA, &[9u8][..]));
    assert!(!link.recv(End::B, &mut out));
}

#[test]
fn fifo_order_preserved() {
    let mut link = can_pair(16);
    for i in 0..10u32 {
        link.send(End::A, &CanFrame::new(i, &[])).unwrap();
    }
    let mut out = CanFrame::new(0, &[]);
    for i in 0..10u32 {
        assert!(link.recv(End::B, &mut out));
        assert_eq!(out.id, i);
    }
}

#[test]
fn overflow_is_dropped_error() {
    let mut link = can_pair(4);
    for i in 0..4u32 {
        assert!(link.send(End::A, &CanFrame::new(i, &[])).is_ok());
    }
    assert!(matches!(link.send(End::A, &CanFrame::new(99, &[])), Err(HalError::Dropped)));
}

#[test]
fn fault_injection_drops_every_nth() {
    let mut link = can_pair(8);
    link.set_drop_every(End::A, 3);

    let mut delivered = 0;
    let mut out = CanFrame::new(0, &[]);
    for i in 1..=6u32 {
        if link.send(End::A, &CanFrame::new(i, &[])).is_ok() {
            assert!(link.recv(End::B, &mut out));
            assert_eq!(out.id, i);
            delivered += 1;
        }
    }
    assert_eq!(delivered, 4);
    assert_eq!(link.tx_attempts(End::A), 6);
}

fn exercise_can_contract(link: &mut CanLink) {
    assert!(link.send(End::A, &CanFrame::new(ids::MOTOR_CMD, &[1, 2, 3, 4])).is_ok());
    assert!(link.send(End::B, &CanFrame::new(ids::IMU_DATA, &[9])).is_ok());

    let mut out = CanFrame::new(0, &[]);
    assert!(link.recv(End::B, &mut out), "B must receive A's frame");
    assert_eq!((out.id, out.payload()), (ids::MOTOR_CMD, &[1u8, 2, 3, 4][..]));
    assert!(link.recv(End::A, &mut out), "A must receive B's frame");
    assert_eq!((out.id, out.payload()), (ids::IMU_DATA, &[9u8][..]));

    for i in 0..8u32 {
        assert!(link.send(End::A, &CanFrame::new(i, &[i as u8])).is_ok());
    }
    for i in 0..8u32 {
        assert!(link.recv(End::B, &mut out), "burst frame {i} lost");
        assert_eq!((out.id, out.payload()), (i, &[i as u8][..]));
    }

    let mut empty = CanFrame::new(0, &[]);
    assert!(!link.recv(End::B, &mut empty), "empty bus must not yield a frame");
}

#[test]
fn mock_backend_satisfies_can_contract() {
    let mut link = can_pair(16);
    exercise_can_contract(&mut link);
}

#[test]
fn stub_backend_fails_loudly_but_honors_trait() {
    assert!(matches!(StubCan::open("can0"), Err(HalError::Unsupported(_))));

    let mut stub = StubCan::default();
    let mut frame = CanFrame::new(ids::MOTOR_CMD, &[1, 2, 3, 4]);
    assert!(matches!(stub.send(&frame), Err(HalError::Unsupported(_))));
    assert!(!stub.recv(&mut frame), "inert stub must never yield a frame");
}

#[test]
fn frames_hold_eight_bytes_at_most() {
    let f = CanFrame::new(1, &[1, 2, 3, 4, 5, 6, 7, 8, 9, 10]);
    assert_eq!(f.payload(), &[1, 2, 3, 4, 5, 6, 7, 8]);
}

#[test]
fn raw_frames_read_back() {
    let f = CanFrame::new(0x1234, &[7, 8]);
    let raw = to_raw(&f);
    assert_eq!(raw.can_dlc, 2);
    let g = from_raw(&raw);
    assert_eq!((g.id, g.payload()), (0x1234, &[7u8, 8][..]));
    let big = CanFrame::new(0x0123_4567, &[]);
    assert_eq!(to_raw(&big).can_id & CAN_EFF_FLAG, CAN_EFF_FLAG);
    assert_eq!(from_raw(&to_raw(&big)).id, 0x0123_4567);
}

// --- Registers -----------------------------------------------------------------------

#[test]
fn buffer_mmio_reads_what_it_writes() {
    let mut m = BufferMmio::new(64);
    m.write_u32(0, 0xDEAD_BEEF);
    m.write_u32(16, 0x1234_5678);
    assert_eq!(m.read_u32(0), 0xDEAD_BEEF);
    assert_eq!(m.read_u32(16), 0x1234_5678);
    assert_eq!(m.read_u32(32), 0);
}

// --- Camera --------------------------------------------------------------------------

#[test]
fn geometry_and_buffer_checks() {
    let mut cam = NullCamera::new();
    cam.configure(64, 32, PixelFormat::GrayY8).unwrap();

    let mut small = vec![0u8; 100];
    let mut info = FrameInfo::default();
    assert!(matches!(
        cam.grab(&mut small, &mut info),
        Err(HalError::BufferTooSmall { .. })
    ));

    let mut buf = vec![0u8; PixelFormat::GrayY8.min_buffer_len(64, 32)];
    cam.grab(&mut buf, &mut info).unwrap();
    assert_eq!(info.width, 64);
    assert_eq!(info.height, 32);
    assert_eq!(info.stride, 64);
    assert_eq!(info.format, PixelFormat::GrayY8.as_u32());
    assert_eq!(info.seq, 1);
    assert_ne!(&buf[..], &[0u8; 2048], "pattern must not be all-zero");

    cam.configure(640, 480, PixelFormat::Nv12).unwrap();
    assert_eq!(PixelFormat::Nv12.min_buffer_len(640, 480), 640 * 480 * 3 / 2);
}

#[test]
fn frames_are_numbered() {
    let mut cam = NullCamera::default();
    cam.configure(4, 4, PixelFormat::GrayY8).unwrap();
    let mut buf = vec![0u8; 16];
    let mut info = FrameInfo::default();
    cam.grab(&mut buf, &mut info).unwrap();
    let first = info.timestamp_ns;
    cam.grab(&mut buf, &mut info).unwrap();
    assert_eq!(info.seq, 2);
    assert!(info.timestamp_ns > first);
}

// --- Drone ---------------------------------------------------------------------------

#[test]
fn thrust_commands_are_taken_from_the_bus() {
    let mut input = CommandInput::new();
    assert!(input.handle_can(&CanFrame::new(ids::IMU_DATA, &[0; 8])).is_none());
    let cmds = input.handle_can(&CanFrame::new(ids::MOTOR_CMD, &[0xff, 0xff, 0, 0, 0xff, 0xff, 0, 0]));
    let cmds = cmds.unwrap();
    assert_eq!(cmds.len(), 4);
    assert_eq!(f32::from_bits(cmds[1].value), 0.0);
    assert!(f32::from_bits(cmds[0].value) > 0.99);
}

// --- MAVLink -------------------------------------------------------------------------

fn make_heartbeat(seq: u8) -> Vec<u8> {
    let payload = [0x01u8, 0x00, 0x00, 0x00, 1, 8, 0x80, 3, 3];
    let mut buf = vec![MAVLINK_1_MAGIC, payload.len() as u8, seq, 1, 1, 0];
    buf.extend_from_slice(&payload);
    let crc = mav_crc16(&buf[1..]) ^ 50;
    buf.extend_from_slice(&crc.to_le_bytes());
    buf
}

#[test]
fn crc16_matches_known_poly_behavior() {
    assert_eq!(mav_crc16(&[]), 0xFFFF);
    assert_ne!(mav_crc16(&[1, 2, 3, 4]), 0);
}

#[test]
fn heartbeat_roundtrips_through_parser() {
    let buf = make_heartbeat(7);
    let f = parse_frame(&buf).expect("parses");
    assert_eq!(f.version, 1);
    assert_eq!(f.seq, 7);
    assert_eq!(f.msgid, 0);
    assert_eq!(f.payload_len, 9);
    let hb = decode_heartbeat(&f).unwrap();
    assert_eq!(hb.custom_mode, 1);
    assert_eq!(hb.autopilot, 8);
    assert_eq!(hb.mavlink_version, 3);

    let mut bad = buf.clone();
    bad[6] ^= 0xFF;
    assert_eq!(parse_frame(&bad), Err(MavError::Crc));
}

#[test]
fn checksums_are_owed_at_every_length() {
    let header = [0u8, 7, 1, 1, 0];
    let good = mav_crc16(&header) ^ 50;
    let frame = |crc: u16| {
        let mut buf = vec![MAVLINK_1_MAGIC];
        buf.extend_from_slice(&header);
        buf.extend_from_slice(&crc.to_le_bytes());
        buf
    };
    let f = parse_frame(&frame(good)).unwrap();
    assert_eq!((f.msgid, f.payload_len, f.crc), (0, 0, good));
    assert!(decode_heartbeat(&f).is_none());
    for crc in [good ^ 1, !good, good.wrapping_add(7)] {
        assert_eq!(parse_frame(&frame(crc)), Err(MavError::Crc));
    }
    // An unknown message carries any checksum.
    let mut other = frame(0x1234);
    other[5] = 200;
    assert_eq!(parse_frame(&other).unwrap().crc, 0x1234);
}

#[test]
fn streaming_parser_emits_frames() {
    let mut p = MavParser::new();
    let bytes = make_heartbeat(2);
    let mut got = None;
    for b in bytes {
        if let Some(f) = p.feed(b) {
            got = Some(f);
        }
    }
    let f = got.expect("frame emitted");
    assert_eq!(f.seq, 2);
    assert!(decode_heartbeat(&f).is_some());
}

#[test]
fn attitude_decodes_into_struct() {
    let mut payload = [0u8; 28];
    payload[0..4].copy_from_slice(&1000u32.to_le_bytes());
    payload[4..8].copy_from_slice(&0.5f32.to_le_bytes());
    payload[8..12].copy_from_slice(&(-0.25f32).to_le_bytes());
    let mut buf = vec![MAVLINK_2_MAGIC, 28, 0, 0, 4, 1, 1];
    buf.extend_from_slice(&30u32.to_le_bytes());
    buf.extend_from_slice(&payload);
    let crc = mav_crc16(&buf[1..]) ^ 39;
    buf.extend_from_slice(&crc.to_le_bytes());
    let f = parse_frame(&buf).expect("v2 attitude parses");
    assert_eq!(f.version, 2);
    assert_eq!(f.msgid, 30);
    let a = decode_attitude(&f).unwrap();
    assert_eq!(a.time_boot_ms, 1000);
    assert!((f32::from_bits(a.roll) - 0.5).abs() < 1e-6);
    assert!((f32::from_bits(a.yaw) - (-0.25)).abs() < 1e-6);
}

#[test]
fn bad_magic_and_truncation_rejected() {
    assert_eq!(parse_frame(&[0x00, 0x01]), Err(MavError::Magic));
    let mut short = make_heartbeat(0);
    short.truncate(short.len() - 1);
    assert_eq!(parse_frame(&short), Err(MavError::Truncated));
}

#[test]
fn parser_finds_a_frame_behind_noise() {
    let mut p = MavParser::default();
    let mut got = 0;
    for b in [0u8, 1, 2, 3] {
        assert!(p.feed(b).is_none());
    }
    for b in make_heartbeat(9) {
        if let Some(f) = p.feed(b) {
            assert_eq!(f.seq, 9);
            got += 1;
        }
    }
    assert_eq!(got, 1);
}

#[test]
fn dialect_and_lengths() {
    assert_eq!(dialect_for(0), Some((9, 50)));
    assert_eq!(dialect_for(30), Some((28, 39)));
    assert!(dialect_for(0xff_ffff).is_none());
    assert_eq!(frame_len(1, 9, false), 17);
    assert_eq!(le_u32(&[9, 1, 2, 3, 4], 1), 0x0403_0201);
    assert!(!MavError::Crc.message().is_empty());
}
