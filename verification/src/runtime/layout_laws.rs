//! Where the fields of the wire structs stand, byte by byte.
use vstd::prelude::*;
use crate::analytics::record::FdrEntry;
use crate::bytes::{le, lemma_le_len};
use crate::cloud::recorder::{frame_bytes, header_of, Frame};
use crate::runtime::wire::{
    lemma_words_len, words, ControlCommand, GpsSample, ImuSample, PlainBytes, TelemetryPacket,
    WireFrame,
};

verus! {

/// The 16-bit number at `i`, its lowest byte first.
pub open spec fn u16_at(b: Seq<u8>, i: int) -> int {
    b[i] + 0x100 * b[i + 1]
}

/// The 32-bit number at `i`, its lowest byte first.
pub open spec fn u32_at(b: Seq<u8>, i: int) -> int {
    b[i] + 0x100 * b[i + 1] + 0x1_0000 * b[i + 2] + 0x100_0000 * b[i + 3]
}

/// The 64-bit number at `i`, its lowest byte first.
pub open spec fn u64_at(b: Seq<u8>, i: int) -> int {
    u32_at(b, i) + 0x1_0000_0000 * u32_at(b, i + 4)
}

/// `part` stands at `i` in `b`.
pub open spec fn stands_at(b: Seq<u8>, i: int, part: Seq<u8>) -> bool {
    0 <= i && i + part.len() <= b.len() && b.subrange(i, i + part.len()) == part
}

proof fn lemma_u16(b: Seq<u8>, i: int, n: u16)
    requires
        stands_at(b, i, le(n as nat, 2)),
    ensures
        u16_at(b, i) == n,
{
    reveal_with_fuel(le, 3);
    lemma_le_len(n as nat, 2);
    let s = b.subrange(i, i + 2);
    assert(s[0] == b[i] && s[1] == b[i + 1]);
}

proof fn lemma_u32(b: Seq<u8>, i: int, n: u32)
    requires
        stands_at(b, i, le(n as nat, 4)),
    ensures
        u32_at(b, i) == n,
{
    reveal_with_fuel(le, 5);
    lemma_le_len(n as nat, 4);
    let s = b.subrange(i, i + 4);
    assert(s[0] == b[i] && s[1] == b[i + 1] && s[2] == b[i + 2] && s[3] == b[i + 3]);
}

proof fn lemma_u64(b: Seq<u8>, i: int, n: u64)
    requires
        stands_at(b, i, le(n as nat, 8)),
    ensures
        u64_at(b, i) == n,
{
    reveal_with_fuel(le, 9);
    lemma_le_len(n as nat, 8);
    let s = b.subrange(i, i + 8);
    assert(s[0] == b[i] && s[1] == b[i + 1] && s[2] == b[i + 2] && s[3] == b[i + 3]);
    assert(s[4] == b[i + 4] && s[5] == b[i + 5] && s[6] == b[i + 6] && s[7] == b[i + 7]);
}

proof fn lemma_byte(b: Seq<u8>, i: int, n: u8)
    requires
        stands_at(b, i, le(n as nat, 1)),
    ensures
        b[i] == n,
{
    reveal_with_fuel(le, 2);
    let s = b.subrange(i, i + 1);
    assert(s[0] == b[i]);
}

/// What stands in a part stands in the whole, the length of what comes first
/// further on.
proof fn lemma_behind(a: Seq<u8>, rest: Seq<u8>, i: int, part: Seq<u8>)
    requires
        stands_at(rest, i, part),
    ensures
        stands_at(a + rest, a.len() + i, part),
{
    let b = a + rest;
    assert(b.subrange(a.len() + i, a.len() + i + part.len()) =~= rest.subrange(
        i,
        i + part.len(),
    ));
}

proof fn lemma_first(a: Seq<u8>, rest: Seq<u8>)
    ensures
        stands_at(a + rest, 0, a),
{
    assert((a + rest).subrange(0, a.len() as int) =~= a);
}

proof fn lemma_before(a: Seq<u8>, rest: Seq<u8>, i: int, part: Seq<u8>)
    requires
        stands_at(a, i, part),
    ensures
        stands_at(a + rest, i, part),
{
    assert((a + rest).subrange(i, i + part.len()) =~= a.subrange(i, i + part.len()));
}

proof fn lemma_words_at(v: Seq<u32>, k: int)
    requires
        0 <= k < v.len(),
    ensures
        stands_at(words(v), 4 * k, le(v[k] as nat, 4)),
    decreases k,
{
    let a = le(v[0] as nat, 4);
    let rest = words(v.drop_first());
    lemma_le_len(v[0] as nat, 4);
    if k == 0 {
        lemma_first(a, rest);
    } else {
        lemma_words_at(v.drop_first(), k - 1);
        lemma_behind(a, rest, 4 * (k - 1), le(v[k] as nat, 4));
    }
}

/// The bytes of a command: 48 in all, each field at its place.
pub proof fn law_control_layout(c: ControlCommand)
    ensures
        c.wire().len() == 48,
        u32_at(c.wire(), 0) == c.magic,
        u16_at(c.wire(), 4) == c.version,
        c.wire()[6] == c.mode,
        c.wire()[7] == c.flags,
        u64_at(c.wire(), 8) == c.seq,
        u64_at(c.wire(), 16) == c.timestamp_ns,
        forall|k: int|
            0 <= k < 6 ==> u32_at(c.wire(), 24 + 4 * k) == #[trigger] c.axes@[k],
{
    let b = c.wire();
    c.lemma_wire_len();
    let p0 = le(c.magic as nat, 4);
    lemma_le_len(c.magic as nat, 4);
    let p4 = le(c.version as nat, 2);
    lemma_le_len(c.version as nat, 2);
    let p6 = le(c.mode as nat, 1);
    lemma_le_len(c.mode as nat, 1);
    let p7 = le(c.flags as nat, 1);
    lemma_le_len(c.flags as nat, 1);
    let p8 = le(c.seq as nat, 8);
    lemma_le_len(c.seq as nat, 8);
    let p16 = le(c.timestamp_ns as nat, 8);
    lemma_le_len(c.timestamp_ns as nat, 8);
    let p24 = words(c.axes@);
    let r24 = p24;
    let r16 = p16 + r24;
    let r8 = p8 + r16;
    let r7 = p7 + r8;
    let r6 = p6 + r7;
    let r4 = p4 + r6;
    let r0 = p0 + r4;
    assert(b == r0);
    lemma_first(p0, r4);
    lemma_u32(b, 0, c.magic);
    lemma_first(p4, r6);
    lemma_behind(p0, r4, 0, p4);
    lemma_u16(b, 4, c.version);
    lemma_first(p6, r7);
    lemma_behind(p4, r6, 0, p6);
    lemma_behind(p0, r4, 2, p6);
    lemma_byte(b, 6, c.mode);
    lemma_first(p7, r8);
    lemma_behind(p6, r7, 0, p7);
    lemma_behind(p4, r6, 1, p7);
    lemma_behind(p0, r4, 3, p7);
    lemma_byte(b, 7, c.flags);
    lemma_first(p8, r16);
    lemma_behind(p7, r8, 0, p8);
    lemma_behind(p6, r7, 1, p8);
    lemma_behind(p4, r6, 2, p8);
    lemma_behind(p0, r4, 4, p8);
    lemma_u64(b, 8, c.seq);
    lemma_first(p16, r24);
    lemma_behind(p8, r16, 0, p16);
    lemma_behind(p7, r8, 8, p16);
    lemma_behind(p6, r7, 9, p16);
    lemma_behind(p4, r6, 10, p16);
    lemma_behind(p0, r4, 12, p16);
    lemma_u64(b, 16, c.timestamp_ns);
    assert forall|k: int| 0 <= k < 6 implies u32_at(b, 24 + 4 * k) == #[trigger] c.axes@[k] by {
        let w = le(c.axes@[k] as nat, 4);
        lemma_le_len(c.axes@[k] as nat, 4);
        lemma_words_at(c.axes@, k);
        lemma_behind(p16, r24, 0 + 4 * k, w);
        lemma_behind(p8, r16, 8 + 4 * k, w);
        lemma_behind(p7, r8, 16 + 4 * k, w);
        lemma_behind(p6, r7, 17 + 4 * k, w);
        lemma_behind(p4, r6, 18 + 4 * k, w);
        lemma_behind(p0, r4, 20 + 4 * k, w);
        lemma_u32(b, 24 + 4 * k, c.axes@[k]);
    }
}

/// The bytes of an inertial sample: 48 in all, each field at its place.
pub proof fn law_imu_layout(s: ImuSample)
    ensures
        s.wire().len() == 48,
        u32_at(s.wire(), 0) == s.magic,
        u16_at(s.wire(), 4) == s.version,
        u16_at(s.wire(), 6) == s.reserved,
        u64_at(s.wire(), 8) == s.seq,
        u64_at(s.wire(), 16) == s.timestamp_ns,
        forall|k: int|
            0 <= k < 3 ==> u32_at(s.wire(), 24 + 4 * k) == #[trigger] s.gyro_rps@[k],
        forall|k: int|
            0 <= k < 3 ==> u32_at(s.wire(), 36 + 4 * k) == #[trigger] s.accel_g@[k],
{
    let b = s.wire();
    s.lemma_wire_len();
    let p0 = le(s.magic as nat, 4);
    lemma_le_len(s.magic as nat, 4);
    let p4 = le(s.version as nat, 2);
    lemma_le_len(s.version as nat, 2);
    let p6 = le(s.reserved as nat, 2);
    lemma_le_len(s.reserved as nat, 2);
    let p8 = le(s.seq as nat, 8);
    lemma_le_len(s.seq as nat, 8);
    let p16 = le(s.timestamp_ns as nat, 8);
    lemma_le_len(s.timestamp_ns as nat, 8);
    let p24 = words(s.gyro_rps@);
    lemma_words_len(s.gyro_rps@);
    let p36 = words(s.accel_g@);
    let r36 = p36;
    let r24 = p24 + r36;
    let r16 = p16 + r24;
    let r8 = p8 + r16;
    let r6 = p6 + r8;
    let r4 = p4 + r6;
    let r0 = p0 + r4;
    assert(b == r0);
    lemma_first(p0, r4);
    lemma_u32(b, 0, s.magic);
    lemma_first(p4, r6);
    lemma_behind(p0, r4, 0, p4);
    lemma_u16(b, 4, s.version);
    lemma_first(p6, r8);
    lemma_behind(p4, r6, 0, p6);
    lemma_behind(p0, r4, 2, p6);
    lemma_u16(b, 6, s.reserved);
    lemma_first(p8, r16);
    lemma_behind(p6, r8, 0, p8);
    lemma_behind(p4, r6, 2, p8);
    lemma_behind(p0, r4, 4, p8);
    lemma_u64(b, 8, s.seq);
    lemma_first(p16, r24);
    lemma_behind(p8, r16, 0, p16);
    lemma_behind(p6, r8, 8, p16);
    lemma_behind(p4, r6, 10, p16);
    lemma_behind(p0, r4, 12, p16);
    lemma_u64(b, 16, s.timestamp_ns);
    assert forall|k: int| 0 <= k < 3 implies u32_at(b, 24 + 4 * k) == #[trigger] s.gyro_rps@[k] by {
        let w = le(s.gyro_rps@[k] as nat, 4);
        lemma_le_len(s.gyro_rps@[k] as nat, 4);
        lemma_words_at(s.gyro_rps@, k);
        lemma_before(p24, r36, 4 * k, w);
        lemma_behind(p16, r24, 0 + 4 * k, w);
        lemma_behind(p8, r16, 8 + 4 * k, w);
        lemma_behind(p6, r8, 16 + 4 * k, w);
        lemma_behind(p4, r6, 18 + 4 * k, w);
        lemma_behind(p0, r4, 20 + 4 * k, w);
        lemma_u32(b, 24 + 4 * k, s.gyro_rps@[k]);
    }
    assert forall|k: int| 0 <= k < 3 implies u32_at(b, 36 + 4 * k) == #[trigger] s.accel_g@[k] by {
        let w = le(s.accel_g@[k] as nat, 4);
        lemma_le_len(s.accel_g@[k] as nat, 4);
        lemma_words_at(s.accel_g@, k);
        lemma_behind(p24, r36, 0 + 4 * k, w);
        lemma_behind(p16, r24, 12 + 4 * k, w);
        lemma_behind(p8, r16, 20 + 4 * k, w);
        lemma_behind(p6, r8, 28 + 4 * k, w);
        lemma_behind(p4, r6, 30 + 4 * k, w);
        lemma_behind(p0, r4, 32 + 4 * k, w);
        lemma_u32(b, 36 + 4 * k, s.accel_g@[k]);
    }
}

/// The bytes of a position: 64 in all, each field at its place.
pub proof fn law_gps_layout(s: GpsSample)
    ensures
        s.wire().len() == 64,
        u32_at(s.wire(), 0) == s.magic,
        u16_at(s.wire(), 4) == s.version,
        u16_at(s.wire(), 6) == s.reserved,
        u64_at(s.wire(), 8) == s.seq,
        u64_at(s.wire(), 16) == s.timestamp_ns,
        u64_at(s.wire(), 24) == s.lat_deg,
        u64_at(s.wire(), 32) == s.lon_deg,
        u64_at(s.wire(), 40) == s.alt_m,
        u32_at(s.wire(), 48) == s.speed_mps,
        u32_at(s.wire(), 52) == s.course_deg,
        u32_at(s.wire(), 56) == s.sats,
        u32_at(s.wire(), 60) == s.fix_ok,
{
    let b = s.wire();
    s.lemma_wire_len();
    let p0 = le(s.magic as nat, 4);
    lemma_le_len(s.magic as nat, 4);
    let p4 = le(s.version as nat, 2);
    lemma_le_len(s.version as nat, 2);
    let p6 = le(s.reserved as nat, 2);
    lemma_le_len(s.reserved as nat, 2);
    let p8 = le(s.seq as nat, 8);
    lemma_le_len(s.seq as nat, 8);
    let p16 = le(s.timestamp_ns as nat, 8);
    lemma_le_len(s.timestamp_ns as nat, 8);
    let p24 = le(s.lat_deg as nat, 8);
    lemma_le_len(s.lat_deg as nat, 8);
    let p32 = le(s.lon_deg as nat, 8);
    lemma_le_len(s.lon_deg as nat, 8);
    let p40 = le(s.alt_m as nat, 8);
    lemma_le_len(s.alt_m as nat, 8);
    let p48 = le(s.speed_mps as nat, 4);
    lemma_le_len(s.speed_mps as nat, 4);
    let p52 = le(s.course_deg as nat, 4);
    lemma_le_len(s.course_deg as nat, 4);
    let p56 = le(s.sats as nat, 4);
    lemma_le_len(s.sats as nat, 4);
    let p60 = le(s.fix_ok as nat, 4);
    lemma_le_len(s.fix_ok as nat, 4);
    let r60 = p60;
    let r56 = p56 + r60;
    let r52 = p52 + r56;
    let r48 = p48 + r52;
    let r40 = p40 + r48;
    let r32 = p32 + r40;
    let r24 = p24 + r32;
    let r16 = p16 + r24;
    let r8 = p8 + r16;
    let r6 = p6 + r8;
    let r4 = p4 + r6;
    let r0 = p0 + r4;
    assert(b == r0);
    lemma_first(p0, r4);
    lemma_u32(b, 0, s.magic);
    lemma_first(p4, r6);
    lemma_behind(p0, r4, 0, p4);
    lemma_u16(b, 4, s.version);
    lemma_first(p6, r8);
    lemma_behind(p4, r6, 0, p6);
    lemma_behind(p0, r4, 2, p6);
    lemma_u16(b, 6, s.reserved);
    lemma_first(p8, r16);
    lemma_behind(p6, r8, 0, p8);
    lemma_behind(p4, r6, 2, p8);
    lemma_behind(p0, r4, 4, p8);
    lemma_u64(b, 8, s.seq);
    lemma_first(p16, r24);
    lemma_behind(p8, r16, 0, p16);
    lemma_behind(p6, r8, 8, p16);
    lemma_behind(p4, r6, 10, p16);
    lemma_behind(p0, r4, 12, p16);
    lemma_u64(b, 16, s.timestamp_ns);
    lemma_first(p24, r32);
    lemma_behind(p16, r24, 0, p24);
    lemma_behind(p8, r16, 8, p24);
    lemma_behind(p6, r8, 16, p24);
    lemma_behind(p4, r6, 18, p24);
    lemma_behind(p0, r4, 20, p24);
    lemma_u64(b, 24, s.lat_deg);
    lemma_first(p32, r40);
    lemma_behind(p24, r32, 0, p32);
    lemma_behind(p16, r24, 8, p32);
    lemma_behind(p8, r16, 16, p32);
    lemma_behind(p6, r8, 24, p32);
    lemma_behind(p4, r6, 26, p32);
    lemma_behind(p0, r4, 28, p32);
    lemma_u64(b, 32, s.lon_deg);
    lemma_first(p40, r48);
    lemma_behind(p32, r40, 0, p40);
    lemma_behind(p24, r32, 8, p40);
    lemma_behind(p16, r24, 16, p40);
    lemma_behind(p8, r16, 24, p40);
    lemma_behind(p6, r8, 32, p40);
    lemma_behind(p4, r6, 34, p40);
    lemma_behind(p0, r4, 36, p40);
    lemma_u64(b, 40, s.alt_m);
    lemma_first(p48, r52);
    lemma_behind(p40, r48, 0, p48);
    lemma_behind(p32, r40, 8, p48);
    lemma_behind(p24, r32, 16, p48);
    lemma_behind(p16, r24, 24, p48);
    lemma_behind(p8, r16, 32, p48);
    lemma_behind(p6, r8, 40, p48);
    lemma_behind(p4, r6, 42, p48);
    lemma_behind(p0, r4, 44, p48);
    lemma_u32(b, 48, s.speed_mps);
    lemma_first(p52, r56);
    lemma_behind(p48, r52, 0, p52);
    lemma_behind(p40, r48, 4, p52);
    lemma_behind(p32, r40, 12, p52);
    lemma_behind(p24, r32, 20, p52);
    lemma_behind(p16, r24, 28, p52);
    lemma_behind(p8, r16, 36, p52);
    lemma_behind(p6, r8, 44, p52);
    lemma_behind(p4, r6, 46, p52);
    lemma_behind(p0, r4, 48, p52);
    lemma_u32(b, 52, s.course_deg);
    lemma_first(p56, r60);
    lemma_behind(p52, r56, 0, p56);
    lemma_behind(p48, r52, 4, p56);
    lemma_behind(p40, r48, 8, p56);
    lemma_behind(p32, r40, 16, p56);
    lemma_behind(p24, r32, 24, p56);
    lemma_behind(p16, r24, 32, p56);
    lemma_behind(p8, r16, 40, p56);
    lemma_behind(p6, r8, 48, p56);
    lemma_behind(p4, r6, 50, p56);
    lemma_behind(p0, r4, 52, p56);
    lemma_u32(b, 56, s.sats);
    assert(r60.subrange(0, r60.len() as int) =~= r60);
    lemma_behind(p56, r60, 0, p60);
    lemma_behind(p52, r56, 4, p60);
    lemma_behind(p48, r52, 8, p60);
    lemma_behind(p40, r48, 12, p60);
    lemma_behind(p32, r40, 20, p60);
    lemma_behind(p24, r32, 28, p60);
    lemma_behind(p16, r24, 36, p60);
    lemma_behind(p8, r16, 44, p60);
    lemma_behind(p6, r8, 52, p60);
    lemma_behind(p4, r6, 54, p60);
    lemma_behind(p0, r4, 56, p60);
    lemma_u32(b, 60, s.fix_ok);
}

/// The bytes of a telemetry packet: 56 in all, each field at its place.
pub proof fn law_telemetry_layout(p: TelemetryPacket)
    ensures
        p.wire().len() == 56,
        u32_at(p.wire(), 0) == p.magic,
        u16_at(p.wire(), 4) == p.kind,
        u16_at(p.wire(), 6) == p.reserved,
        u64_at(p.wire(), 8) == p.seq,
        u64_at(p.wire(), 16) == p.timestamp_ns,
        forall|k: int|
            0 <= k < 8 ==> u32_at(p.wire(), 24 + 4 * k) == #[trigger] p.values@[k],
{
    let b = p.wire();
    p.lemma_wire_len();
    let p0 = le(p.magic as nat, 4);
    lemma_le_len(p.magic as nat, 4);
    let p4 = le(p.kind as nat, 2);
    lemma_le_len(p.kind as nat, 2);
    let p6 = le(p.reserved as nat, 2);
    lemma_le_len(p.reserved as nat, 2);
    let p8 = le(p.seq as nat, 8);
    lemma_le_len(p.seq as nat, 8);
    let p16 = le(p.timestamp_ns as nat, 8);
    lemma_le_len(p.timestamp_ns as nat, 8);
    let p24 = words(p.values@);
    let r24 = p24;
    let r16 = p16 + r24;
    let r8 = p8 + r16;
    let r6 = p6 + r8;
    let r4 = p4 + r6;
    let r0 = p0 + r4;
    assert(b == r0);
    lemma_first(p0, r4);
    lemma_u32(b, 0, p.magic);
    lemma_first(p4, r6);
    lemma_behind(p0, r4, 0, p4);
    lemma_u16(b, 4, p.kind);
    lemma_first(p6, r8);
    lemma_behind(p4, r6, 0, p6);
    lemma_behind(p0, r4, 2, p6);
    lemma_u16(b, 6, p.reserved);
    lemma_first(p8, r16);
    lemma_behind(p6, r8, 0, p8);
    lemma_behind(p4, r6, 2, p8);
    lemma_behind(p0, r4, 4, p8);
    lemma_u64(b, 8, p.seq);
    lemma_first(p16, r24);
    lemma_behind(p8, r16, 0, p16);
    lemma_behind(p6, r8, 8, p16);
    lemma_behind(p4, r6, 10, p16);
    lemma_behind(p0, r4, 12, p16);
    lemma_u64(b, 16, p.timestamp_ns);
    assert forall|k: int| 0 <= k < 8 implies u32_at(b, 24 + 4 * k) == #[trigger] p.values@[k] by {
        let w = le(p.values@[k] as nat, 4);
        lemma_le_len(p.values@[k] as nat, 4);
        lemma_words_at(p.values@, k);
        lemma_behind(p16, r24, 0 + 4 * k, w);
        lemma_behind(p8, r16, 8 + 4 * k, w);
        lemma_behind(p6, r8, 16 + 4 * k, w);
        lemma_behind(p4, r6, 18 + 4 * k, w);
        lemma_behind(p0, r4, 20 + 4 * k, w);
        lemma_u32(b, 24 + 4 * k, p.values@[k]);
    }
}

/// The bytes of a frame header: 8 in all, each field at its place.
pub proof fn law_frame_layout(f: WireFrame)
    ensures
        f.wire().len() == 8,
        u32_at(f.wire(), 0) == f.magic,
        u16_at(f.wire(), 4) == f.version,
        u16_at(f.wire(), 6) == f.payload_len,
{
    let b = f.wire();
    f.lemma_wire_len();
    let p0 = le(f.magic as nat, 4);
    lemma_le_len(f.magic as nat, 4);
    let p4 = le(f.version as nat, 2);
    lemma_le_len(f.version as nat, 2);
    let p6 = le(f.payload_len as nat, 2);
    lemma_le_len(f.payload_len as nat, 2);
    let r6 = p6;
    let r4 = p4 + r6;
    let r0 = p0 + r4;
    assert(b == r0);
    lemma_first(p0, r4);
    lemma_u32(b, 0, f.magic);
    lemma_first(p4, r6);
    lemma_behind(p0, r4, 0, p4);
    lemma_u16(b, 4, f.version);
    assert(r6.subrange(0, r6.len() as int) =~= r6);
    lemma_behind(p4, r6, 0, p6);
    lemma_behind(p0, r4, 2, p6);
    lemma_u16(b, 6, f.payload_len);
}

/// The bytes of a recorder frame: a header of 16, then the payload of 512.
pub proof fn law_entry_layout(e: FdrEntry)
    ensures
        e.wire().len() == 528,
        u64_at(e.wire(), 0) == e.timestamp_ns,
        u16_at(e.wire(), 8) == e.payload_len,
        e.wire()[10] == e.kind,
        e.wire()[11] == e.pad,
        u32_at(e.wire(), 12) == e.reserved,
        forall|k: int| 0 <= k < 512 ==> e.wire()[16 + k] == #[trigger] e.payload@[k],
{
    let b = e.wire();
    e.lemma_wire_len();
    let p0 = le(e.timestamp_ns as nat, 8);
    let p8 = le(e.payload_len as nat, 2);
    let p10 = le(e.kind as nat, 1);
    let p11 = le(e.pad as nat, 1);
    let p12 = le(e.reserved as nat, 4);
    lemma_le_len(e.timestamp_ns as nat, 8);
    lemma_le_len(e.payload_len as nat, 2);
    lemma_le_len(e.kind as nat, 1);
    lemma_le_len(e.pad as nat, 1);
    lemma_le_len(e.reserved as nat, 4);
    let r16 = e.payload@;
    let r12 = p12 + r16;
    let r11 = p11 + r12;
    let r10 = p10 + r11;
    let r8 = p8 + r10;
    assert(b == p0 + r8);
    lemma_first(p0, r8);
    lemma_u64(b, 0, e.timestamp_ns);
    lemma_first(p8, r10);
    lemma_behind(p0, r8, 0, p8);
    lemma_u16(b, 8, e.payload_len);
    lemma_first(p10, r11);
    lemma_behind(p8, r10, 0, p10);
    lemma_behind(p0, r8, 2, p10);
    lemma_byte(b, 10, e.kind);
    lemma_first(p11, r12);
    lemma_behind(p10, r11, 0, p11);
    lemma_behind(p8, r10, 1, p11);
    lemma_behind(p0, r8, 3, p11);
    lemma_byte(b, 11, e.pad);
    lemma_first(p12, r16);
    lemma_behind(p11, r12, 0, p12);
    lemma_behind(p10, r11, 1, p12);
    lemma_behind(p8, r10, 2, p12);
    lemma_behind(p0, r8, 4, p12);
    lemma_u32(b, 12, e.reserved);
    assert forall|k: int| 0 <= k < 512 implies b[16 + k] == #[trigger] e.payload@[k] by {
        assert(r12[4 + k] == r16[k]);
        assert(r11[5 + k] == r12[4 + k]);
        assert(r10[6 + k] == r11[5 + k]);
        assert(r8[8 + k] == r10[6 + k]);
    }
}

/// The header of a unit's recording: the text `TPTREC` from its last letter to its first
/// behind two zero bytes, the version, and the id of the unit.
pub proof fn law_recording_header_layout(unit_id: u64)
    ensures
        header_of(unit_id).len() == 18,
        header_of(unit_id).take(8) == seq![0u8, 0, 0x43, 0x45, 0x52, 0x54, 0x50, 0x54],
        u16_at(header_of(unit_id), 8) == 1,
        u64_at(header_of(unit_id), 10) == unit_id,
{
    let b = header_of(unit_id);
    let magic = le(0x5450_5452_4543_0000, 8);
    let version = le(1, 2);
    let id = le(unit_id as nat, 8);
    lemma_le_len(0x5450_5452_4543_0000, 8);
    lemma_le_len(1, 2);
    lemma_le_len(unit_id as nat, 8);
    assert(magic =~= seq![0u8, 0, 0x43, 0x45, 0x52, 0x54, 0x50, 0x54]) by {
        reveal_with_fuel(le, 9);
    }
    assert(b.take(8) =~= magic);
    assert(b =~= magic + (version + id));
    lemma_first(version, id);
    lemma_behind(magic, version + id, 0, version);
    lemma_u16(b, 8, 1);
    assert(id.subrange(0, 8) =~= id);
    lemma_behind(version, id, 0, id);
    lemma_behind(magic, version + id, 2, id);
    lemma_u64(b, 10, unit_id);
}

/// The bytes of a frame in a unit's recording: its channel, its sequence number,
/// the length of its payload, and the payload.
pub proof fn law_recorded_frame_layout(f: Frame)
    requires
        f.payload.len() <= u32::MAX,
    ensures
        frame_bytes(f).len() == 13 + f.payload.len(),
        frame_bytes(f)[0] == f.channel,
        u64_at(frame_bytes(f), 1) == f.seq,
        u32_at(frame_bytes(f), 9) == f.payload.len(),
        frame_bytes(f).skip(13) == f.payload,
{
    let b = frame_bytes(f);
    let channel = seq![f.channel];
    let seq_part = le(f.seq as nat, 8);
    let len_part = le(f.payload.len(), 4);
    lemma_le_len(f.seq as nat, 8);
    lemma_le_len(f.payload.len(), 4);
    let r9 = len_part + f.payload;
    let r1 = seq_part + r9;
    assert(b =~= channel + r1);
    lemma_first(seq_part, r9);
    lemma_behind(channel, r1, 0, seq_part);
    lemma_u64(b, 1, f.seq);
    lemma_first(len_part, f.payload);
    lemma_behind(seq_part, r9, 0, len_part);
    lemma_behind(channel, r1, 8, len_part);
    lemma_u32(b, 9, f.payload.len() as u32);
    assert(b.skip(13) =~= f.payload);
}

} // verus!
