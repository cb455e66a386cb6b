//! Modes, rings, pools, the bus, wire structs, archives, affinity and event loops.
use tpt_teleop::cloud::server::{PendingWork, LISTENER_TOKEN};
use tpt_teleop::runtime::affinity::{affinity_mask, pin_current, thread_label, AffinityError};
use tpt_teleop::runtime::archive::{access_root, serialize_into, AlignedBuf, WireError};
use tpt_teleop::runtime::bus::MessageBus;
use tpt_teleop::runtime::eventloop::{
    deliver, kqueue_ready, wait_ms, Event, IocpLoop, KqueueLoop, Ready, Target, Timeout, KQ_EVFILT_READ, KQ_EVFILT_WRITE, KQ_EV_ARM, KQ_EV_DELETE, KQ_EV_EOF, KQ_EV_ERROR,
};
use tpt_teleop::runtime::mode::{Mode, ModeError, TransitionTable};
use tpt_teleop::runtime::mpmc::MpmcRing;
use tpt_teleop::runtime::pool::BufferPool;
use tpt_teleop::runtime::ring::{next_power_of_two, SpscRing};
use tpt_teleop::runtime::wire::{
    bytes_of, from_bytes_aligned, split_prefix, ControlCommand, GpsSample, ImuSample, PlainBytes,
    TelemetryKind, TelemetryPacket, WireFrame, FLAG_AI_ORIGIN, FRAME_MAGIC, PROTOCOL_VERSION,
    WIRE_ALIGN,
};

// --- Modes ---------------------------------------------------------------------------

#[test]
fn discriminants_stable() {
    for m in Mode::ALL {
        assert_eq!(Mode::from_u8(m.as_u8()), Some(m));
    }
    assert_eq!(Mode::from_u8(4), None);
}

#[test]
fn default_table_policy() {
    let t = TransitionTable::spec_default();
    assert!(t.allows(Mode::Auto, Mode::Assist));
    assert!(t.allows(Mode::Assist, Mode::FullTeleop));
    assert!(!t.allows(Mode::Auto, Mode::FullTeleop));
    assert!(!t.allows(Mode::FullTeleop, Mode::Auto));
    assert!(t.allows(Mode::FullTeleop, Mode::EmergencyStop));
    assert!(t.allows(Mode::EmergencyStop, Mode::Assist));
    assert!(!t.allows(Mode::EmergencyStop, Mode::FullTeleop));
}

#[test]
fn table_can_be_changed_edge_by_edge() {
    let mut t = TransitionTable::default();
    assert!(!t.allows(Mode::Auto, Mode::FullTeleop));
    t.set_allowed(Mode::Auto, Mode::FullTeleop, true);
    assert!(t.allows(Mode::Auto, Mode::FullTeleop));
    assert!(!t.allows(Mode::FullTeleop, Mode::Auto));
    t.deny_entry(Mode::FullTeleop);
    for m in Mode::ALL {
        if m != Mode::FullTeleop {
            assert!(!t.allows(m, Mode::FullTeleop));
        }
    }
    assert!(t.allows(Mode::Auto, Mode::Assist));
}

#[test]
fn mode_names_and_errors() {
    assert_eq!(Mode::Auto.name(), "AUTO");
    assert_eq!(Mode::Assist.name(), "ASSIST");
    assert_eq!(Mode::FullTeleop.name(), "TELEOP");
    assert_eq!(Mode::EmergencyStop.name(), "ESTOP");
    let e = ModeError::Disallowed { from: Mode::Auto, to: Mode::FullTeleop };
    let text = e.message();
    assert!(text.contains("AUTO") && text.contains("TELEOP"));
}

// --- Rings ---------------------------------------------------------------------------

#[test]
fn ring_is_first_in_first_out() {
    let mut r = SpscRing::with_capacity(3);
    assert_eq!(r.capacity(), 4);
    for i in 0..4u32 {
        assert!(r.push(i).is_ok());
    }
    assert!(r.is_full());
    assert_eq!(r.push(9), Err(9));
    assert_eq!(r.pop(), Some(0));
    assert!(r.push(4).is_ok());
    let mut got = Vec::new();
    while let Some(v) = r.pop() {
        got.push(v);
    }
    assert_eq!(got, vec![1, 2, 3, 4]);
    assert!(r.is_empty());
    assert_eq!(r.len(), 0);
}

#[test]
fn capacities_round_up() {
    assert_eq!(next_power_of_two(0), 1);
    assert_eq!(next_power_of_two(1), 1);
    assert_eq!(next_power_of_two(5), 8);
    assert_eq!(next_power_of_two(64), 64);
}

#[test]
fn mpmc_is_first_in_first_out() {
    let mut r = MpmcRing::with_capacity(2);
    assert_eq!(r.capacity(), 2);
    assert!(r.push(1u8).is_ok());
    assert!(r.push(2).is_ok());
    assert_eq!(r.push(3), Err(3));
    assert_eq!(r.pop(), Some(1));
    assert!(r.push(3).is_ok());
    assert_eq!(r.pop(), Some(2));
    assert_eq!(r.pop(), Some(3));
    assert_eq!(r.pop(), None);
    let mut one = MpmcRing::with_capacity(1);
    assert!(one.push(7u8).is_ok());
    assert_eq!(one.push(8), Err(8));
    assert_eq!(one.len(), 1);
    assert_eq!(one.pop(), Some(7));
    assert!(one.is_empty());
}

// --- Pool ----------------------------------------------------------------------------

#[test]
fn exhaust_then_recycle_retains_contents() {
    let mut pool = BufferPool::<u64>::new(4);
    let mut guards = Vec::new();
    for i in 0..4u64 {
        let g = pool.get_with(|| i * 10).unwrap();
        assert_eq!(*g.get(), i * 10);
        guards.push(g);
    }
    assert!(pool.get_default().is_none(), "exhausted");
    assert_eq!(pool.in_use(), 4);

    pool.release(guards.remove(1));
    assert_eq!(pool.in_use(), 3);

    let again = pool.get_default().unwrap();
    assert_eq!(*again.get(), 10, "recycled slot retains prior contents");
}

#[test]
fn pooled_values_can_be_changed() {
    let mut pool = BufferPool::<Vec<u8>>::new(1);
    assert_eq!(pool.capacity(), 1);
    let mut g = pool.get_default().unwrap();
    g.get_mut().push(5);
    pool.release(g);
    let mut g = pool.get_with(|| vec![9]).unwrap();
    assert_eq!(g.get(), &vec![5]);
    g.write(vec![1, 2]);
    assert_eq!(g.get(), &vec![1, 2]);
    pool.release(g);
    assert_eq!(pool.in_use(), 0);
}

// --- Bus -----------------------------------------------------------------------------

#[test]
fn fanout_reaches_all_subscribers_in_order() {
    let mut bus: MessageBus<u32> = MessageBus::new(16);
    let a = bus.subscribe();
    let b = bus.subscribe();

    for i in 0..10 {
        assert_eq!(bus.publish(i), 2);
    }

    let mut got_a = Vec::new();
    let mut got_b = Vec::new();
    assert_eq!(bus.poll(a, &mut got_a), 10);
    assert_eq!(bus.poll(b, &mut got_b), 10);
    assert_eq!(got_a, (0..10).collect::<Vec<_>>());
    assert_eq!(got_b, got_a);
    assert_eq!(bus.pending(a), 0);
}

#[test]
fn full_subscriber_ring_drops_message_gracefully() {
    let mut bus: MessageBus<u8> = MessageBus::new(4);
    let id = bus.subscribe();
    for i in 0..6u8 {
        let expected = if i < 4 { 1 } else { 0 };
        assert_eq!(bus.publish(i), expected);
    }
    let mut got = Vec::new();
    bus.poll(id, &mut got);
    assert_eq!(got, vec![0, 1, 2, 3]);
}

#[test]
fn delivery_to_one_subscriber_leaves_the_others() {
    let mut bus: MessageBus<u8> = MessageBus::new(2);
    let a = bus.subscribe();
    let b = bus.subscribe();
    assert_eq!(bus.subscriber_count(), 2);
    assert!(bus.try_deliver(a, 1));
    assert!(bus.try_deliver(a, 2));
    assert!(!bus.try_deliver(a, 3));
    assert_eq!(bus.pending(a), 2);
    assert_eq!(bus.pending(b), 0);
}

// --- Wire structs --------------------------------------------------------------------

#[test]
fn frame_header_cast_roundtrip() {
    let f = WireFrame {
        magic: FRAME_MAGIC,
        version: PROTOCOL_VERSION,
        payload_len: 42,
    };
    assert_eq!(std::mem::size_of::<WireFrame>(), 8);
    assert_eq!(WireFrame::size(), 8);
    let bytes = bytes_of(&f);
    assert_eq!(bytes, vec![0x31, 0x54, 0x50, 0x54, 1, 0, 42, 0]);
    let (back, rest): (WireFrame, &[u8]) = split_prefix(&bytes).unwrap();
    assert_eq!(back.magic, f.magic);
    assert_eq!(back, f);
    assert!(rest.is_empty());
    assert!(split_prefix::<WireFrame>(&bytes[..7]).is_none());
}

#[test]
fn layouts_are_dense_and_castable() {
    assert_eq!(std::mem::size_of::<ImuSample>(), 48);
    assert_eq!(std::mem::size_of::<GpsSample>(), 64);
    assert_eq!(std::mem::size_of::<TelemetryPacket>(), 56);
    assert_eq!(ImuSample::size(), 48);
    assert_eq!(GpsSample::size(), 64);
    assert_eq!(TelemetryPacket::size(), 56);

    let imu = ImuSample {
        gyro_rps: [0.1f32.to_bits(); 3],
        ..ImuSample::zeroed(1, 2)
    };
    assert_eq!(from_bytes_aligned::<ImuSample>(&bytes_of(&imu)).unwrap(), imu);

    let gps = GpsSample {
        lat_deg: 47.6f64.to_bits(),
        ..GpsSample::zeroed(3, 4)
    };
    assert_eq!(from_bytes_aligned::<GpsSample>(&bytes_of(&gps)).unwrap(), gps);

    let pkt = TelemetryPacket {
        values: [0.5f32.to_bits(); 8],
        ..TelemetryPacket::zeroed(TelemetryKind::Pose, 5, 6)
    };
    let back: TelemetryPacket = from_bytes_aligned(&bytes_of(&pkt)).unwrap();
    assert_eq!(back, pkt);
    assert_eq!(TelemetryKind::from_u16(back.kind), Some(TelemetryKind::Pose));
}

#[test]
fn commands_tell_their_mode_and_origin() {
    let mut c = ControlCommand::zeroed(Mode::Assist);
    assert_eq!(c.magic, FRAME_MAGIC);
    assert_eq!(c.version, PROTOCOL_VERSION);
    assert_eq!(c.mode(), Some(Mode::Assist));
    assert!(!c.is_ai_origin());
    c.flags |= FLAG_AI_ORIGIN;
    assert!(c.is_ai_origin());
    c.mode = 9;
    assert_eq!(c.mode(), None);
    assert_eq!(bytes_of(&c).len(), 48);
}

#[test]
fn control_command_rkyv_roundtrip_into_prealigned_buffer() {
    let mut buf = AlignedBuf::new();
    let cmd = ControlCommand {
        seq: 7,
        timestamp_ns: 123_456,
        mode: Mode::FullTeleop.as_u8(),
        flags: 0,
        axes: [0.1f32, 0.2, 0.3, 0.4, 0.5, 0.6].map(f32::to_bits),
        ..ControlCommand::zeroed(Mode::FullTeleop)
    };
    let n = serialize_into(&cmd, &mut buf).unwrap();
    assert!(n > 0 && n <= buf.len());
    assert_eq!(buf.as_ptr() as usize % WIRE_ALIGN, 0);

    let arch = access_root::<ControlCommand>(&buf).unwrap();
    assert_eq!(arch.seq, 7);
    assert_eq!(arch.mode, Mode::FullTeleop.as_u8());
    assert_eq!(arch.timestamp_ns, 123_456);
    assert_eq!(f32::from_bits(arch.axes[3]), 0.4);

    let ptr_before = buf.as_ptr();
    let _ = serialize_into(&cmd, &mut buf).unwrap();
    assert_eq!(buf.as_ptr(), ptr_before, "buffer must be reused");
}

#[test]
fn archives_are_the_wire_bytes() {
    let cmd = ControlCommand {
        magic: 0x0102_0304,
        version: 0x0506,
        mode: 7,
        flags: 8,
        seq: 0x1112_1314_1516_1718,
        timestamp_ns: 0x2122_2324_2526_2728,
        axes: [1, 2, 3, 4, 5, 0xfefd_fcfb],
    };
    let mut buf = AlignedBuf::new();
    assert_eq!(serialize_into(&cmd, &mut buf), Ok(48));
    assert_eq!(buf.as_slice(), &bytes_of(&cmd)[..]);
    assert_eq!(access_root(&buf), Ok(cmd));
    // The archive stands at the end of the bytes.
    let mut more = AlignedBuf::new();
    more.extend_from_slice(&[0xee; 8]);
    more.extend_from_slice(&bytes_of(&cmd));
    assert_eq!(access_root(&more), Ok(cmd));
}

#[test]
fn archives_out_of_place_are_refused() {
    let mut buf = AlignedBuf::new();
    assert_eq!(access_root::<ControlCommand>(&buf), Err(WireError::Truncated));
    buf.extend_from_slice(&[0; 47]);
    assert_eq!(access_root::<ControlCommand>(&buf), Err(WireError::Truncated));
    buf.extend_from_slice(&[0; 2]);
    assert_eq!(access_root::<ControlCommand>(&buf), Err(WireError::Misaligned));
    buf.extend_from_slice(&[0; 7]);
    assert!(access_root::<ControlCommand>(&buf).is_ok());
}

#[test]
fn archives_of_samples_are_their_wire_bytes() {
    let mut buf = AlignedBuf::new();
    let imu = ImuSample {
        magic: 0x0102_0304,
        version: 0x0506,
        reserved: 0x0708,
        seq: 0x1112_1314_1516_1718,
        timestamp_ns: 0x2122_2324_2526_2728,
        gyro_rps: [1, 2, 0x3132_3334],
        accel_g: [4, 5, 0x4142_4344],
    };
    assert_eq!(serialize_into(&imu, &mut buf), Ok(48));
    assert_eq!(buf.as_slice(), &bytes_of(&imu)[..]);
    assert_eq!(access_root(&buf), Ok(imu));

    let gps = GpsSample {
        magic: 0x0102_0304,
        version: 0x0506,
        reserved: 0x0708,
        seq: 0x1112_1314_1516_1718,
        timestamp_ns: 0x2122_2324_2526_2728,
        lat_deg: 0x3132_3334_3536_3738,
        lon_deg: 0x4142_4344_4546_4748,
        alt_m: 0x5152_5354_5556_5758,
        speed_mps: 0x6162_6364,
        course_deg: 0x7172_7374,
        sats: 0x8182_8384,
        fix_ok: 0x9192_9394,
    };
    assert_eq!(serialize_into(&gps, &mut buf), Ok(64));
    assert_eq!(buf.as_slice(), &bytes_of(&gps)[..]);
    assert_eq!(access_root(&buf), Ok(gps));

    let packet = TelemetryPacket {
        magic: 0x0102_0304,
        kind: 0x0506,
        reserved: 0x0708,
        seq: 0x1112_1314_1516_1718,
        timestamp_ns: 0x2122_2324_2526_2728,
        values: [1, 2, 3, 4, 5, 6, 7, 0xf1f2_f3f4],
    };
    assert_eq!(serialize_into(&packet, &mut buf), Ok(56));
    assert_eq!(buf.as_slice(), &bytes_of(&packet)[..]);
    assert_eq!(access_root(&buf), Ok(packet));
    assert_eq!(access_root::<GpsSample>(&buf), Err(WireError::Truncated));
    // 49 bytes hold a sample, but not in its place.
    let mut odd = AlignedBuf::new();
    odd.extend_from_slice(&[0; 49]);
    assert_eq!(access_root::<ImuSample>(&odd), Err(WireError::Misaligned));
    assert_eq!(access_root::<TelemetryPacket>(&odd), Err(WireError::Truncated));
}

// --- Affinity ------------------------------------------------------------------------

#[test]
fn rejects_out_of_range_and_empty() {
    let cores = 8;
    assert!(matches!(pin_current(&[], cores), Err(AffinityError::NoCores)));
    assert!(matches!(
        pin_current(&[cores + 100], cores),
        Err(AffinityError::OutOfRange { .. })
    ));
}

#[test]
fn first_missing_core_is_named() {
    assert!(pin_current(&[0, 7], 8).is_ok());
    match pin_current(&[1, 9, 10], 8) {
        Err(AffinityError::OutOfRange { core, max }) => {
            assert_eq!((core, max), (9, 8));
        }
        _ => panic!("expected a refusal"),
    }
}

#[test]
fn masks_and_labels() {
    assert_eq!(affinity_mask(&[]), 0);
    assert_eq!(affinity_mask(&[0, 2, 2, 63]), (1 << 63) | 5);
    assert!(thread_label("video").contains("video"));
}

#[test]
fn affinity_errors_in_words() {
    assert_eq!(AffinityError::NoCores.message(), "no cores requested");
    assert_eq!(
        AffinityError::OutOfRange { core: 9, max: 8 }.message(),
        "core 9 out of range (machine has 8)"
    );
    assert_eq!(
        AffinityError::Os("denied".to_string()).message(),
        "affinity syscall failed: denied"
    );
    assert_eq!(
        AffinityError::Mach(-5).message(),
        "mach thread_policy_set failed: kern=-5"
    );
}

// --- Event loops ---------------------------------------------------------------------

#[test]
fn events_reach_the_handler_in_order() {
    let mut work = PendingWork::new();
    let events = [
        Event { token: 777, ready: Ready::read() },
        Event { token: 8, ready: Ready::write() },
        Event { token: 3, ready: Ready::read().union(Ready::error()) },
        Event { token: LISTENER_TOKEN, ready: Ready::read() },
    ];
    assert_eq!(deliver(&events[..3], &mut work), 3);
    assert_eq!(work.service, vec![777, 3]);
    assert!(!work.accept);
    assert_eq!(deliver(&events[3..], &mut work), 1);
    assert!(work.accept);
}

#[test]
fn readiness_is_a_set() {
    let both = Ready::read().union(Ready::write());
    assert!(both.contains(Ready::read()) && both.contains(Ready::write()));
    assert!(!both.contains(Ready::error()));
    assert!(both.intersects(Ready::read()));
    assert!(!Ready::empty().intersects(both));
    assert!(both.contains(Ready::empty()));
}

#[test]
fn kqueue_registrations_are_undone() {
    let mut q = KqueueLoop::new();
    let both = Ready::read().union(Ready::write());
    let changes = KqueueLoop::plan(Target::Fd(5), 42, both).unwrap();
    assert_eq!(changes.len(), 2);
    assert!(changes.iter().all(|c| c.fd == 5 && c.flags == KQ_EV_ARM && c.token == 42));
    assert_eq!(changes[0].filter, KQ_EVFILT_READ);
    assert_eq!(changes[1].filter, KQ_EVFILT_WRITE);
    q.armed(5, 42, both);
    let undo = q.disarm(Target::Fd(5));
    assert_eq!(undo.len(), 2);
    assert!(undo.iter().all(|c| c.fd == 5 && c.flags == KQ_EV_DELETE));
    assert!(q.disarm(Target::Fd(5)).is_empty());
    assert!(KqueueLoop::plan(Target::Handle(5), 42, both).is_err());
}

#[test]
fn kqueue_events_in_words() {
    assert!(kqueue_ready(0, KQ_EVFILT_READ).contains(Ready::read()));
    assert!(kqueue_ready(0, KQ_EVFILT_WRITE).contains(Ready::write()));
    assert!(kqueue_ready(KQ_EV_ERROR, KQ_EVFILT_READ).contains(Ready::error()));
    assert!(kqueue_ready(KQ_EV_EOF, KQ_EVFILT_READ).contains(Ready::read()));
}

#[test]
fn completion_ports_take_handles_only() {
    let mut l = IocpLoop::new();
    assert!(IocpLoop::plan(Target::Fd(3)).is_err());
    let h = IocpLoop::plan(Target::handle_raw(0x44)).unwrap();
    assert_eq!(h, 0x44);
    l.associated(h, 9);
    let e = l.completed(9, false).unwrap();
    assert_eq!(e.token, 9);
    assert!(e.ready.contains(Ready::read()));
    assert!(e.ready.contains(Ready::write()));
    assert!(!e.ready.contains(Ready::error()));
}

#[test]
fn unregistered_handles_are_silent() {
    let mut l = IocpLoop::new();
    l.associated(0x44, 9);
    l.associated(0x48, 9);
    l.associated(0x4c, 11);
    l.unregister(Target::Handle(0x4c));
    assert!(l.completed(11, false).is_none());
    assert_eq!(l.completed(11, true).unwrap().token, 11);
    l.unregister(Target::Handle(0x44));
    assert!(l.completed(9, false).is_some());
    l.unregister(Target::Fd(0x48));
    assert!(l.completed(9, false).is_some());
    l.unregister(Target::Handle(0x48));
    assert!(l.completed(9, false).is_none());
    l.associated(0x48, 12);
    l.associated(0x48, 13);
    assert!(l.completed(12, false).is_none());
    assert_eq!(l.completed(13, false).unwrap().token, 13);
}

#[test]
fn timeouts_in_milliseconds() {
    assert_eq!(wait_ms(None), u32::MAX);
    assert_eq!(wait_ms(Some(Timeout { secs: 0, nanos: 0 })), 0);
    assert_eq!(wait_ms(Some(Timeout { secs: 2, nanos: 500_000_000 })), 2500);
}
