//! What a MAVLink frame gives back of what its sender put in.
use vstd::prelude::*;
use crate::bytes::{le, lemma_le_len, lemma_le_ranges, lemma_le_reads_back};
use crate::hal::mavlink::{
    attitude_of, crc16, dialect, divides, fed, frame_in, heartbeat_of, law_checksum_is_the_remainder,
    law_remainder_is_the_checksum, Attitude, Frame, Heartbeat, MavError,
};

verus! {

/// The header of a frame of version 1, from the byte after the magic on.
pub open spec fn header_1(n: u8, seq: u8, sysid: u8, compid: u8, msgid: u8) -> Seq<u8> {
    seq![n, seq, sysid, compid, msgid]
}

/// The header of a frame of version 2, from the byte after the magic on. The id
/// has three bytes, the lowest first, and one byte is left over.
pub open spec fn header_2(
    n: u8,
    flags: u8,
    compat: u8,
    seq: u8,
    sysid: u8,
    compid: u8,
    msgid: u32,
    spare: u8,
) -> Seq<u8> {
    seq![n, flags, compat, seq, sysid, compid] + le(msgid as nat, 3) + seq![spare]
}

/// The number that the checksum of a message is combined with, for the messages
/// that have one.
pub open spec fn extra_of(msgid: u32) -> Option<u16> {
    match msgid {
        0 => Some(50),
        1 => Some(124),
        24 => Some(167),
        30 => Some(39),
        33 => Some(104),
        _ => None,
    }
}

/// A sender may put `crc` behind `covered`, the bytes after the magic: of a
/// message with a number of its own, combined with it the remainder of those
/// bytes, and of another message anything.
pub open spec fn may_end(covered: Seq<u8>, msgid: u32, crc: u16) -> bool {
    match extra_of(msgid) {
        Some(e) => exists|q: Seq<bool>| #[trigger] divides(q, covered, crc ^ e),
        None => true,
    }
}

proof fn lemma_may_end(covered: Seq<u8>, msgid: u32, crc: u16)
    ensures
        match extra_of(msgid) {
            Some(e) => may_end(covered, msgid, crc) == (crc == crc16(covered) ^ e),
            None => may_end(covered, msgid, crc),
        },
{
    if let Some(e) = extra_of(msgid) {
        let own = crc16(covered);
        assert(crc == own ^ e ==> crc ^ e == own) by (bit_vector);
        assert(crc ^ e == own ==> crc == own ^ e) by (bit_vector);
        law_checksum_is_the_remainder(covered);
        if may_end(covered, msgid, crc) {
            let q = choose|q: Seq<bool>| #[trigger] divides(q, covered, crc ^ e);
            law_remainder_is_the_checksum(covered, crc ^ e, q);
        }
    }
}

/// A frame of version 1 gives its fields back if its checksum is what a sender
/// may put there, and is refused for its checksum if not.
pub proof fn law_version_1_frame_reads_back(
    seq: u8,
    sysid: u8,
    compid: u8,
    msgid: u8,
    payload: Seq<u8>,
    crc: u16,
)
    requires
        payload.len() <= 255,
    ensures
        ({
            let covered = header_1(payload.len() as u8, seq, sysid, compid, msgid) + payload;
            frame_in(seq![0xFEu8] + covered + le(crc as nat, 2)) == (if may_end(
                covered,
                msgid as u32,
                crc,
            ) {
                Ok::<Frame, MavError>(
                    Frame {
                        version: 1,
                        seq,
                        sysid,
                        compid,
                        msgid: msgid as u32,
                        payload,
                        crc,
                        signed: 0,
                    },
                )
            } else {
                Err::<Frame, MavError>(MavError::Crc)
            })
        }),
{
    let covered = header_1(payload.len() as u8, seq, sysid, compid, msgid) + payload;
    let buf = seq![0xFEu8] + covered + le(crc as nat, 2);
    let n = payload.len() as int;
    lemma_le_len(crc as nat, 2);
    lemma_le_ranges();
    lemma_le_reads_back(crc as nat, 2);
    lemma_may_end(covered, msgid as u32, crc);
    assert(buf.subrange(6, 6 + n) =~= payload);
    assert(buf.subrange(6 + n, 8 + n) =~= le(crc as nat, 2));
    assert(buf.subrange(1, 6 + n) =~= covered);
    assert(crate::hal::mavlink::fields_in(buf).payload =~= payload);
}

/// A frame of version 2, with a tail of thirteen bytes where its flags announce
/// a signature, gives its fields back if its checksum is what a sender may put
/// there, and is refused for its checksum if not.
pub proof fn law_version_2_frame_reads_back(
    flags: u8,
    compat: u8,
    seq: u8,
    sysid: u8,
    compid: u8,
    msgid: u32,
    spare: u8,
    payload: Seq<u8>,
    crc: u16,
    tail: Seq<u8>,
)
    requires
        payload.len() <= 255,
        msgid < 0x100_0000,
        tail.len() == (if flags % 2 == 1 {
            13nat
        } else {
            0nat
        }),
    ensures
        ({
            let covered = header_2(
                payload.len() as u8,
                flags,
                compat,
                seq,
                sysid,
                compid,
                msgid,
                spare,
            ) + payload;
            frame_in(seq![0xFDu8] + covered + le(crc as nat, 2) + tail) == (if may_end(
                covered,
                msgid,
                crc,
            ) {
                Ok::<Frame, MavError>(
                    Frame {
                        version: 2,
                        seq,
                        sysid,
                        compid,
                        msgid,
                        payload,
                        crc,
                        signed: flags % 2,
                    },
                )
            } else {
                Err::<Frame, MavError>(MavError::Crc)
            })
        }),
{
    let covered = header_2(payload.len() as u8, flags, compat, seq, sysid, compid, msgid, spare)
        + payload;
    let buf = seq![0xFDu8] + covered + le(crc as nat, 2) + tail;
    let n = payload.len() as int;
    lemma_le_len(crc as nat, 2);
    lemma_le_len(msgid as nat, 3);
    lemma_le_ranges();
    reveal_with_fuel(crate::bytes::le_range, 4);
    lemma_le_reads_back(crc as nat, 2);
    lemma_le_reads_back(msgid as nat, 3);
    lemma_may_end(covered, msgid, crc);
    assert((flags & 1 != 0) == (flags % 2 == 1)) by (bit_vector);
    assert(buf[1] == payload.len() as u8 && buf[2] == flags && buf[4] == seq && buf[5] == sysid
        && buf[6] == compid);
    assert(buf.subrange(7, 10) =~= le(msgid as nat, 3));
    assert(buf.subrange(11, 11 + n) =~= payload);
    assert(buf.subrange(11 + n, 13 + n) =~= le(crc as nat, 2));
    assert(buf.subrange(1, 11 + n) =~= covered);
    assert(crate::hal::mavlink::fields_in(buf).payload =~= payload);
}

proof fn lemma_words(b: Seq<u8>, off: int, v: u32)
    requires
        0 <= off,
        off + 4 <= b.len(),
        b.subrange(off, off + 4) == le(v as nat, 4),
    ensures
        crate::hal::mavlink::word_at(b, off) == v,
{
    lemma_le_ranges();
    lemma_le_reads_back(v as nat, 4);
}

/// A heartbeat is read back from its nine bytes: the mode bitmap first, lowest
/// byte first, then type, autopilot, base mode, status and version.
pub proof fn law_heartbeat_reads_back(f: Frame, h: Heartbeat, more: Seq<u8>)
    requires
        f.msgid == 0,
        f.payload == le(h.custom_mode as nat, 4) + seq![
            h.type_,
            h.autopilot,
            h.base_mode,
            h.system_status,
            h.mavlink_version,
        ] + more,
    ensures
        heartbeat_of(f) == Some(h),
{
    lemma_le_len(h.custom_mode as nat, 4);
    assert(f.payload.subrange(0, 4) =~= le(h.custom_mode as nat, 4));
    lemma_words(f.payload, 0, h.custom_mode);
}

/// An attitude is read back from its seven words, each lowest byte first: the
/// time, roll, yaw, pitch, and the three rates.
pub proof fn law_attitude_reads_back(f: Frame, a: Attitude, more: Seq<u8>)
    requires
        f.msgid == 30,
        f.payload == le(a.time_boot_ms as nat, 4) + le(a.roll as nat, 4) + le(a.yaw as nat, 4) + le(
            a.pitch as nat,
            4,
        ) + le(a.rollspeed as nat, 4) + le(a.pitchspeed as nat, 4) + le(a.yawspeed as nat, 4) + more,
    ensures
        attitude_of(f) == Some(a),
{
    let p = f.payload;
    lemma_le_len(a.time_boot_ms as nat, 4);
    lemma_le_len(a.roll as nat, 4);
    lemma_le_len(a.yaw as nat, 4);
    lemma_le_len(a.pitch as nat, 4);
    lemma_le_len(a.rollspeed as nat, 4);
    lemma_le_len(a.pitchspeed as nat, 4);
    lemma_le_len(a.yawspeed as nat, 4);
    assert(p.subrange(0, 4) =~= le(a.time_boot_ms as nat, 4));
    assert(p.subrange(4, 8) =~= le(a.roll as nat, 4));
    assert(p.subrange(8, 12) =~= le(a.yaw as nat, 4));
    assert(p.subrange(12, 16) =~= le(a.pitch as nat, 4));
    assert(p.subrange(16, 20) =~= le(a.rollspeed as nat, 4));
    assert(p.subrange(20, 24) =~= le(a.pitchspeed as nat, 4));
    assert(p.subrange(24, 28) =~= le(a.yawspeed as nat, 4));
    lemma_words(p, 0, a.time_boot_ms);
    lemma_words(p, 4, a.roll);
    lemma_words(p, 8, a.yaw);
    lemma_words(p, 12, a.pitch);
    lemma_words(p, 16, a.rollspeed);
    lemma_words(p, 20, a.pitchspeed);
    lemma_words(p, 24, a.yawspeed);
}

/// The lengths and the extra bytes of the messages that are known by their id; of
/// every other message nothing is known.
pub proof fn law_known_messages(msgid: u32)
    ensures
        dialect(msgid) is Some <==> msgid == 0 || msgid == 1 || msgid == 24 || msgid == 30 || msgid
            == 33,
        msgid == 0 ==> dialect(msgid) == Some((9u8, 50u8)),
        msgid == 1 ==> dialect(msgid) == Some((31u8, 124u8)),
        msgid == 24 ==> dialect(msgid) == Some((12u8, 167u8)),
        msgid == 30 ==> dialect(msgid) == Some((28u8, 39u8)),
        msgid == 33 ==> dialect(msgid) == Some((28u8, 104u8)),
{
}

/// Between frames only a magic byte starts one, and what comes before it is passed
/// over. A magic byte later in a frame than the one after its magic starts the
/// next frame instead, and no frame is given out for it.
pub proof fn law_stream_starts_at_a_magic_byte(captured: Seq<u8>, b: u8)
    ensures
        b != 0xFE && b != 0xFD ==> fed(Seq::empty(), b) == (
            Seq::<u8>::empty(),
            None::<Frame>,
        ),
        b == 0xFE || b == 0xFD ==> fed(Seq::empty(), b) == (seq![b], None::<Frame>),
        captured.len() > 1 && (b == 0xFE || b == 0xFD) ==> fed(captured, b) == (
            seq![b],
            None::<Frame>,
        ),
        fed(captured, b).1 matches Some(f) ==> fed(captured, b).0.len() == 0 && exists|n: int|
            0 <= n <= captured.len() + 1 && #[trigger] frame_in(captured.push(b).take(n)) == Ok::<
                Frame,
                MavError,
            >(f),
{
    assert(Seq::<u8>::empty().push(b) =~= seq![b]);
}

/// A frame is complete with 8 bytes more than its payload in version 1, and with
/// 13 more in version 2, where a signature, marked by the lowest bit of the third
/// byte, adds another 13. Fewer bytes are a truncated frame.
pub proof fn law_frames_are_as_long_as_announced(buf: Seq<u8>)
    requires
        buf.len() >= 3,
    ensures
        buf[0] == 0xFE ==> (frame_in(buf) == Err::<Frame, MavError>(MavError::Truncated)
            <==> buf.len() < 8 + buf[1]),
        buf[0] == 0xFD ==> (frame_in(buf) == Err::<Frame, MavError>(MavError::Truncated)
            <==> buf.len() < 13 + buf[1] + 13 * (buf[2] % 2)),
        buf[0] != 0xFE && buf[0] != 0xFD ==> frame_in(buf) == Err::<Frame, MavError>(
            MavError::Magic,
        ),
{
    let f = buf[2];
    assert(f & 1 != 0 <==> f % 2 == 1) by (bit_vector);
}

} // verus!
