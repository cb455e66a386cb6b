//! Recording, tensor files and datasets.
use tpt_teleop::analytics::direct_io::{DirectFile, SECTOR_SIZE};
use tpt_teleop::analytics::export::{extract_features, AiDataset};
use tpt_teleop::analytics::npy::{f32_npy, f64_npy, read_npy, write_npy, NpyError, NPY_MAGIC};
use tpt_teleop::analytics::record::{
    parse_entries, FdrEntry, FdrSink, FdrWriter, RecordError, RecordKind, MAX_PAYLOAD,
};
use tpt_teleop::runtime::mode::Mode;
use tpt_teleop::runtime::ring::SpscRing;
use tpt_teleop::runtime::wire::{
    bytes_of, ControlCommand, GpsSample, ImuSample, PlainBytes, TelemetryKind, TelemetryPacket,
};

fn bits(v: [f32; 6]) -> [u32; 6] {
    v.map(f32::to_bits)
}

#[test]
fn control_features_are_extracted() {
    let c = ControlCommand {
        axes: bits([0.1, 0.2, 0.3, 0.4, 0.5, 0.6]),
        ..ControlCommand::zeroed(Mode::Assist)
    };
    let payload = bytes_of(&c);
    let s = extract_features(RecordKind::Control, &payload).unwrap();
    assert_eq!(s.features.len(), 8);
    assert_eq!(f32::from_bits(s.label), Mode::Assist.as_u8() as f32);
    let axes: Vec<f32> = s.features[2..8].iter().map(|b| f32::from_bits(*b)).collect();
    assert_eq!(axes, vec![0.1, 0.2, 0.3, 0.4, 0.5, 0.6]);
}

#[test]
fn dataset_exports_loadable_npy() {
    let mut stream = Vec::new();
    for i in 0..4u64 {
        let c = ControlCommand {
            axes: bits([i as f32, 0.0, 0.0, 0.0, 0.0, 0.0]),
            ..ControlCommand::zeroed(Mode::FullTeleop)
        };
        let e = FdrEntry::new(RecordKind::Control, &bytes_of(&c), i).unwrap();
        stream.extend_from_slice(&bytes_of(&e));
    }
    let end = FdrEntry::new(RecordKind::End, &[], 0).unwrap();
    stream.extend_from_slice(&bytes_of(&end));

    let entries = parse_entries(&stream);
    let ds = AiDataset::from_entries(&entries);
    assert_eq!(ds.num_samples(), 4);
    assert_eq!(ds.feature_dim, 8);

    let (fb, lb) = ds.npy_pair();
    let fv = read_npy(&fb).unwrap();
    assert_eq!(fv.descr, "<f4");
    assert_eq!(fv.shape, vec![4, 8]);
    let lv = read_npy(&lb).unwrap();
    assert_eq!(lv.shape, vec![4]);
    // The third feature of the third sample is its first axis.
    assert_eq!(f32::from_bits(ds.features_matrix()[2 * 8 + 2]), 2.0);
    assert_eq!(ds.labels_vec().len(), 4);
}

#[test]
fn features_of_each_kind() {
    let mut imu = ImuSample::zeroed(1, 2);
    imu.gyro_rps = [1.0f32, 2.0, 3.0].map(f32::to_bits);
    imu.accel_g = [4.0f32, 5.0, 6.0].map(f32::to_bits);
    let s = extract_features(RecordKind::Imu, &bytes_of(&imu)).unwrap();
    let f: Vec<f32> = s.features.iter().map(|b| f32::from_bits(*b)).collect();
    assert_eq!(f, vec![1.0, 2.0, 3.0, 4.0, 5.0, 6.0]);

    let mut gps = GpsSample::zeroed(1, 2);
    gps.lat_deg = 48.25f64.to_bits();
    gps.lon_deg = (-122.1f64).to_bits();
    gps.alt_m = 10.5f64.to_bits();
    let s = extract_features(RecordKind::Gps, &bytes_of(&gps)).unwrap();
    let f: Vec<f32> = s.features.iter().map(|b| f32::from_bits(*b)).collect();
    assert_eq!(f[0], 48.25f64 as f32);
    assert_eq!(f[1], -122.1f64 as f32);
    assert_eq!(f[2], 10.5f64 as f32);

    let mut t = TelemetryPacket::zeroed(TelemetryKind::Pose, 1, 2);
    t.values = [1.0f32, 2.0, 3.0, 4.0, 5.0, 6.0, 7.0, 8.0].map(f32::to_bits);
    let s = extract_features(RecordKind::Telemetry, &bytes_of(&t)).unwrap();
    assert!(s.features.contains(&8.0f32.to_bits()));

    assert!(extract_features(RecordKind::End, &[0; 64]).is_none());
    assert!(extract_features(RecordKind::Control, &[0; 47]).is_none());
}

#[test]
fn f32_round_trip_parses_back() {
    let matrix: Vec<f32> = (0..12).map(|i| i as f32).collect();
    let words: Vec<u32> = matrix.iter().map(|v| v.to_bits()).collect();
    let buf = f32_npy(&[3, 4], &words);

    let view = read_npy(&buf).unwrap();
    assert_eq!(view.descr, "<f4");
    assert_eq!(view.shape, vec![3, 4]);
    assert_eq!(view.data.len(), 12 * 4);

    let back: Vec<f32> = view
        .data
        .chunks_exact(4)
        .map(|c| f32::from_le_bytes([c[0], c[1], c[2], c[3]]))
        .collect();
    assert_eq!(back, matrix);
}

#[test]
fn header_is_64_byte_aligned() {
    let data: Vec<u32> = [1.0f32, 2.0, 3.0].iter().map(|v| v.to_bits()).collect();
    let buf = f32_npy(&[3], &data);
    let hl = u16::from_le_bytes([buf[8], buf[9]]) as usize;
    assert_eq!((10 + hl) % 64, 0);
}

#[test]
fn f64_tensor_reads_back() {
    let buf = f64_npy(&[2], &[1.5f64.to_bits(), (-2.0f64).to_bits()]);
    let view = read_npy(&buf).unwrap();
    assert_eq!(view.descr, "<f8");
    assert_eq!(view.shape, vec![2]);
    assert_eq!(&view.data[..8], &1.5f64.to_le_bytes());
    assert_eq!(&view.data[8..], &(-2.0f64).to_le_bytes());
}

#[test]
fn npy_header_text() {
    let buf = write_npy("<f4", &[5], &[1, 2]);
    assert_eq!(&buf[..6], &NPY_MAGIC);
    assert_eq!(&buf[6..8], &[1, 0]);
    let text = String::from_utf8(buf[10..buf.len() - 2].to_vec()).unwrap();
    assert!(text.starts_with("{'descr': '<f4', 'fortran_order': False, 'shape': (5"));
    assert!(text.contains("'shape': (5,), }"));
    assert!(text.ends_with('\n'));
    assert_eq!(read_npy(&buf).unwrap().shape, vec![5]);
    // A scalar and a shape of three.
    let buf = write_npy("<f8", &[], &[]);
    assert_eq!(read_npy(&buf).unwrap().shape, Vec::<usize>::new());
    let buf = write_npy("<f8", &[1, 0, 30], &[7]);
    let view = read_npy(&buf).unwrap();
    assert_eq!(view.shape, vec![1, 0, 30]);
    assert_eq!(view.data, &[7]);
    let text = String::from_utf8_lossy(&buf[10..]).into_owned();
    assert!(text.contains("'shape': (1, 0, 30), }"));
}

#[test]
fn npy_shapes_as_tuples() {
    let buf = write_npy("<f4", &[3], &[0; 12]);
    assert!(String::from_utf8_lossy(&buf).contains("'shape': (3,)"));
    let with_shape = |shape: &str| {
        let header = format!("{{'descr': '<f4', 'shape': ({shape}), }}");
        let mut b = NPY_MAGIC.to_vec();
        b.extend_from_slice(&[1, 0, header.len() as u8, 0]);
        b.extend_from_slice(header.as_bytes());
        b
    };
    assert_eq!(read_npy(&with_shape("3")).unwrap().shape, vec![3]);
    assert_eq!(read_npy(&with_shape("3, ")).unwrap().shape, vec![3]);
    assert_eq!(read_npy(&with_shape("3, 4,")).unwrap().shape, vec![3, 4]);
    assert_eq!(read_npy(&with_shape(",")).err(), Some(NpyError::BadHeader));
    assert_eq!(read_npy(&with_shape("3,,4")).err(), Some(NpyError::BadHeader));
}

#[test]
fn npy_errors() {
    assert_eq!(read_npy(&[0; 9]).err(), Some(NpyError::TooShort));
    assert_eq!(read_npy(&[0; 10]).err(), Some(NpyError::BadMagic));
    let mut b = NPY_MAGIC.to_vec();
    b.extend_from_slice(&[1, 0, 4, 0]);
    assert_eq!(read_npy(&b).err(), Some(NpyError::BadHeaderLen));
    b.extend_from_slice(&[0xff, 0xff, 0xff, 0xff]);
    assert_eq!(read_npy(&b).err(), Some(NpyError::BadHeader));
    assert!(!NpyError::BadMagic.message().is_empty());
}

#[test]
fn fdr_entry_layout_has_no_padding() {
    assert_eq!(std::mem::size_of::<FdrEntry>(), 16 + MAX_PAYLOAD);
    assert_eq!(FdrEntry::size(), 16 + MAX_PAYLOAD);
    let e = FdrEntry::new(RecordKind::Control, &[1, 2, 3], 42).unwrap();
    assert_eq!(e.kind(), Some(RecordKind::Control));
    assert_eq!(e.payload(), &[1, 2, 3]);
    assert_eq!(e.timestamp_ns, 42);
}

#[test]
fn payload_too_large_is_rejected() {
    let big = vec![0u8; MAX_PAYLOAD + 1];
    assert!(matches!(
        FdrEntry::new(RecordKind::Control, &big, 0),
        Err(RecordError::PayloadTooLarge { .. })
    ));
}

#[test]
fn full_ring_sheds_without_blocking() {
    let ring = SpscRing::<FdrEntry>::with_capacity(2);
    let mut sink = FdrSink::new(ring);
    let cmd = ControlCommand::zeroed(Mode::FullTeleop);
    assert!(sink.try_control(&cmd).is_ok());
    assert!(sink.try_control(&cmd).is_ok());
    assert!(sink.is_full());
    assert!(matches!(sink.try_control(&cmd), Err(RecordError::Full)));
}

#[test]
fn recorder_round_trips_frames() {
    let mut sink = FdrSink::new(SpscRing::with_capacity(64));
    let mut writer = FdrWriter::open(false);
    let mut file = Vec::new();
    for i in 0..10u64 {
        let cmd = ControlCommand::zeroed(Mode::FullTeleop);
        sink.try_control(&cmd).unwrap();
        let imu = ImuSample {
            gyro_rps: [(i as f32).to_bits(), 0, 0],
            ..ImuSample::zeroed(i, i * 100)
        };
        sink.try_imu(&imu).unwrap();
    }
    let (n, out) = writer.drain_once(&mut sink);
    assert_eq!(n, 20);
    file.extend_from_slice(&out);
    file.extend_from_slice(&writer.finish());
    assert!(writer.written() > 0);

    let entries = parse_entries(&file);
    assert_eq!(entries.len(), 20);
    let controls = entries.iter().filter(|e| e.kind() == Some(RecordKind::Control)).count();
    let imus = entries.iter().filter(|e| e.kind() == Some(RecordKind::Imu)).count();
    assert_eq!(controls, 10);
    assert_eq!(imus, 10);
}

#[test]
fn direct_recording_reads_back_through_its_padding() {
    let mut sink = FdrSink::new(SpscRing::with_capacity(16));
    let mut writer = FdrWriter::open(true);
    let mut file = Vec::new();
    for i in 0..11u64 {
        sink.try_gps(&GpsSample::zeroed(i, i)).unwrap();
    }
    let (n, out) = writer.drain_once(&mut sink);
    assert_eq!(n, 11);
    assert_eq!(out.len() % SECTOR_SIZE, 0);
    file.extend_from_slice(&out);
    file.extend_from_slice(&writer.finish());
    assert_eq!(file.len() % SECTOR_SIZE, 0);
    assert_eq!(file.len() as u64, writer.written());
    let entries = parse_entries(&file);
    assert_eq!(entries.len(), 11);
    assert_eq!(entries[10].timestamp_ns, 10);
}

#[test]
fn direct_file_stages_whole_sectors() {
    let mut f = DirectFile::open(true);
    assert!(f.is_direct());
    assert!(f.write(&vec![7u8; SECTOR_SIZE - 1]).is_empty());
    assert_eq!(f.write(&[1, 2]).len(), SECTOR_SIZE);
    let tail = f.flush();
    assert_eq!(tail.len(), SECTOR_SIZE);
    assert_eq!(tail[0], 2);
    assert!(tail[1..].iter().all(|b| *b == 0));
    assert_eq!(f.written(), 2 * SECTOR_SIZE as u64);

    // A buffered file is written in whole sectors too.
    let mut g = DirectFile::open(false);
    assert!(!g.is_direct());
    assert!(g.write(&[1, 2, 3]).is_empty());
    let out = g.flush();
    assert_eq!(out.len(), SECTOR_SIZE);
    assert_eq!(&out[..4], &[1, 2, 3, 0]);
    assert!(g.flush().is_empty());
}

#[test]
fn end_marker_stops_parse_before_padding() {
    let mut stream = Vec::new();
    let real = FdrEntry::new(RecordKind::Control, &[9, 8, 7], 1).unwrap();
    stream.extend_from_slice(&bytes_of(&real));
    let end = FdrEntry::new(RecordKind::End, &[], 0).unwrap();
    stream.extend_from_slice(&bytes_of(&end));
    stream.extend(std::iter::repeat(0u8).take(SECTOR_SIZE));

    let parsed = parse_entries(&stream);
    assert_eq!(parsed.len(), 1);
    assert_eq!(parsed[0].payload(), &[9, 8, 7]);
}

#[test]
fn record_kinds_have_stable_numbers() {
    for k in [
        RecordKind::Control,
        RecordKind::Imu,
        RecordKind::Gps,
        RecordKind::Telemetry,
        RecordKind::End,
    ] {
        assert_eq!(RecordKind::from_u8(k.as_u8()), Some(k));
    }
    assert_eq!(RecordKind::from_u8(200), None);
}

#[test]
fn record_errors_in_words() {
    assert!(!RecordError::Full.message().is_empty());
    let e = RecordError::PayloadTooLarge { got: 600, max: 512 }.message();
    assert!(e.contains("600") && e.contains("512"));
    assert!(RecordError::Io("disk gone".to_string()).message().contains("disk gone"));
}
