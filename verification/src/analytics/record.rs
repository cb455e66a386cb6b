//! Flight data recorder framing, and the ring between the control loop
//! (producer) and the storage thread (consumer).
//!
//! Logging never blocks the control loop: a full ring refuses the record at
//! once.
use vstd::prelude::*;
use crate::analytics::direct_io::{counted, padded, whole_sectors, zero_bytes, DirectFile};
use crate::bytes::{
    le, lemma_le_len, lemma_le_ranges, lemma_le_reads_back, lemma_le_writes_back, push_le,
    push_slice, read_le,
};
use crate::runtime::ring::SpscRing;
use crate::runtime::wire::{
    bytes_of, decoded, from_bytes_aligned, law_decoded_reads_back, lemma_decoded_is, ControlCommand,
    GpsSample, ImuSample, PlainBytes, TelemetryPacket,
};

verus! {

/// Maximum payload bytes stored inline in an [`FdrEntry`].
pub const MAX_PAYLOAD: usize = 512;

/// What kind of sample an [`FdrEntry`] carries.
#[derive(Debug, Clone, Copy, PartialEq, Eq, Structural)]
pub enum RecordKind {
    /// [`ControlCommand`].
    Control,
    /// [`ImuSample`].
    Imu,
    /// [`GpsSample`].
    Gps,
    /// [`TelemetryPacket`].
    Telemetry,
    /// Internal end-of-stream marker written by the writer on close so readers
    /// stop before the zero-padding that direct I/O appends to the final
    /// sector. Never produced by the hot path.
    End,
}

/// The number of a record kind.
pub open spec fn record_number(k: RecordKind) -> u8 {
    match k {
        RecordKind::Control => 0,
        RecordKind::Imu => 1,
        RecordKind::Gps => 2,
        RecordKind::Telemetry => 3,
        RecordKind::End => 255,
    }
}

/// The record kind of a number.
pub open spec fn record_kind(v: u8) -> Option<RecordKind> {
    if v == 0 {
        Some(RecordKind::Control)
    } else if v == 1 {
        Some(RecordKind::Imu)
    } else if v == 2 {
        Some(RecordKind::Gps)
    } else if v == 3 {
        Some(RecordKind::Telemetry)
    } else if v == 255 {
        Some(RecordKind::End)
    } else {
        None
    }
}

impl RecordKind {
    /// The number of the kind.
    pub fn as_u8(self) -> (r: u8)
        ensures
            r == record_number(self),
    {
        match self {
            RecordKind::Control => 0,
            RecordKind::Imu => 1,
            RecordKind::Gps => 2,
            RecordKind::Telemetry => 3,
            RecordKind::End => 255,
        }
    }

    /// Inverse of [`as_u8`](Self::as_u8).
    pub fn from_u8(v: u8) -> (r: Option<RecordKind>)
        ensures
            r == record_kind(v),
    {
        match v {
            0 => Some(RecordKind::Control),
            1 => Some(RecordKind::Imu),
            2 => Some(RecordKind::Gps),
            3 => Some(RecordKind::Telemetry),
            255 => Some(RecordKind::End),
            _ => None,
        }
    }
}

/// The number of a record kind leads back to the kind.
pub proof fn law_record_numbers(k: RecordKind, v: u8)
    ensures
        record_kind(record_number(k)) == Some(k),
        record_kind(v) matches Some(n) ==> record_number(n) == v,
{
}

/// Fixed-layout recorder frame: a 16-byte header plus an inline payload.
#[derive(Debug, Clone, Copy)]
pub struct FdrEntry {
    /// Capture timestamp (UNIX ns).
    pub timestamp_ns: u64,
    /// Payload byte count following the header.
    pub payload_len: u16,
    /// Number of the [`RecordKind`].
    pub kind: u8,
    /// Reserved.
    pub pad: u8,
    /// Reserved (keeps the header a 16-byte block).
    pub reserved: u32,
    /// Inline payload (only `payload_len` bytes are meaningful).
    pub payload: [u8; 512],
}

impl PlainBytes for FdrEntry {
    open spec fn wire(&self) -> Seq<u8> {
        le(self.timestamp_ns as nat, 8) + (le(self.payload_len as nat, 2) + (le(
            self.kind as nat,
            1,
        ) + (le(self.pad as nat, 1) + (le(self.reserved as nat, 4) + self.payload@))))
    }

    open spec fn wire_len() -> nat {
        528
    }

    proof fn lemma_wire_len(&self) {
        lemma_le_len(self.timestamp_ns as nat, 8);
        lemma_le_len(self.payload_len as nat, 2);
        lemma_le_len(self.kind as nat, 1);
        lemma_le_len(self.pad as nat, 1);
        lemma_le_len(self.reserved as nat, 4);
    }

    proof fn lemma_wire_injective(a: &Self, b: &Self) {
        a.lemma_wire_len();
        b.lemma_wire_len();
        lemma_le_ranges();
        let w = a.wire();
        assert(w.subrange(0, 8) =~= le(a.timestamp_ns as nat, 8)) by {
            lemma_header_lens(a);
        }
        assert(w.subrange(0, 8) =~= le(b.timestamp_ns as nat, 8)) by {
            lemma_header_lens(b);
        }
        assert(w.subrange(8, 10) =~= le(a.payload_len as nat, 2)) by {
            lemma_header_lens(a);
        }
        assert(w.subrange(8, 10) =~= le(b.payload_len as nat, 2)) by {
            lemma_header_lens(b);
        }
        assert(w.subrange(10, 11) =~= le(a.kind as nat, 1)) by {
            lemma_header_lens(a);
        }
        assert(w.subrange(10, 11) =~= le(b.kind as nat, 1)) by {
            lemma_header_lens(b);
        }
        assert(w.subrange(11, 12) =~= le(a.pad as nat, 1)) by {
            lemma_header_lens(a);
        }
        assert(w.subrange(11, 12) =~= le(b.pad as nat, 1)) by {
            lemma_header_lens(b);
        }
        assert(w.subrange(12, 16) =~= le(a.reserved as nat, 4)) by {
            lemma_header_lens(a);
        }
        assert(w.subrange(12, 16) =~= le(b.reserved as nat, 4)) by {
            lemma_header_lens(b);
        }
        assert(w.subrange(16, 528) =~= a.payload@) by {
            lemma_header_lens(a);
        }
        assert(w.subrange(16, 528) =~= b.payload@) by {
            lemma_header_lens(b);
        }
        lemma_le_reads_back(a.timestamp_ns as nat, 8);
        lemma_le_reads_back(b.timestamp_ns as nat, 8);
        lemma_le_reads_back(a.payload_len as nat, 2);
        lemma_le_reads_back(b.payload_len as nat, 2);
        lemma_le_reads_back(a.kind as nat, 1);
        lemma_le_reads_back(b.kind as nat, 1);
        lemma_le_reads_back(a.pad as nat, 1);
        lemma_le_reads_back(b.pad as nat, 1);
        lemma_le_reads_back(a.reserved as nat, 4);
        lemma_le_reads_back(b.reserved as nat, 4);
        assert(a.payload =~= b.payload) by {
            assert forall|i: int| 0 <= i < 512 implies a.payload[i] == b.payload[i] by {
                assert(a.payload@[i] == b.payload@[i]);
            }
        }
    }

    fn size() -> (r: usize) {
        528
    }

    fn to_wire(&self) -> (r: Vec<u8>) {
        let mut out: Vec<u8> = Vec::with_capacity(528);
        push_le(&mut out, self.timestamp_ns, 8);
        push_le(&mut out, self.payload_len as u64, 2);
        push_le(&mut out, self.kind as u64, 1);
        push_le(&mut out, self.pad as u64, 1);
        push_le(&mut out, self.reserved as u64, 4);
        push_slice(&mut out, self.payload.as_slice());
        assert(out@ =~= self.wire());
        out
    }

    fn from_wire(b: &[u8]) -> (r: Self) {
        proof {
            lemma_le_ranges();
            lemma_le_writes_back(b@.subrange(0, 8));
            lemma_le_writes_back(b@.subrange(8, 10));
            lemma_le_writes_back(b@.subrange(10, 11));
            lemma_le_writes_back(b@.subrange(11, 12));
            lemma_le_writes_back(b@.subrange(12, 16));
        }
        let timestamp_ns: u64 = read_le(b, 0, 8);
        let payload_len: u16 = read_le(b, 8, 2) as u16;
        let kind: u8 = read_le(b, 10, 1) as u8;
        let pad: u8 = read_le(b, 11, 1) as u8;
        let reserved: u32 = read_le(b, 12, 4) as u32;
        let payload: [u8; 512] = filled(vstd::slice::slice_subrange(b, 16, 528));
        let r: FdrEntry = FdrEntry { timestamp_ns, payload_len, kind, pad, reserved, payload };
        assert(r.payload@ =~= b@.subrange(16, 528));
        assert(r.wire() =~= b@);
        r
    }
}

proof fn lemma_header_lens(e: &FdrEntry)
    ensures
        le(e.timestamp_ns as nat, 8).len() == 8,
        le(e.payload_len as nat, 2).len() == 2,
        le(e.kind as nat, 1).len() == 1,
        le(e.pad as nat, 1).len() == 1,
        le(e.reserved as nat, 4).len() == 4,
{
    lemma_le_len(e.timestamp_ns as nat, 8);
    lemma_le_len(e.payload_len as nat, 2);
    lemma_le_len(e.kind as nat, 1);
    lemma_le_len(e.pad as nat, 1);
    lemma_le_len(e.reserved as nat, 4);
}

/// The bytes of `part`, then zeros.
fn filled(part: &[u8]) -> (r: [u8; 512])
    requires
        part@.len() <= 512,
    ensures
        r@ == part@ + zero_bytes((512 - part@.len()) as nat),
{
    let mut r: [u8; 512] = [0u8; 512];
    let mut i: usize = 0;
    while i < part.len()
        invariant
            i <= part@.len() <= 512,
            forall|j: int| 0 <= j < i ==> r@[j] == part@[j],
            forall|j: int| i <= j < 512 ==> r@[j] == 0,
        decreases part@.len() - i,
    {
        r[i] = part[i];
        i = i + 1;
    }
    assert(r@ =~= part@ + zero_bytes((512 - part@.len()) as nat));
    r
}

/// Errors returned by the recorder's producer side.
#[derive(Debug)]
pub enum RecordError {
    /// The ring was full: the record was shed rather than block the loop.
    Full,
    /// Payload exceeded [`MAX_PAYLOAD`].
    PayloadTooLarge { got: usize, max: usize },
    /// Underlying I/O failure on the storage thread.
    Io(String),
}

impl RecordError {
    /// The error in words.
    pub open spec fn text(&self) -> Seq<char> {
        match self {
            RecordError::Full => "FDR ring full: record dropped (non-blocking)"@,
            RecordError::PayloadTooLarge { got, max } => "payload "@ + crate::text::decimal(
                *got as nat,
            ) + " bytes exceeds MAX_PAYLOAD "@ + crate::text::decimal(*max as nat),
            RecordError::Io(e) => "FDR I/O error: "@ + e@,
        }
    }

    /// The error in words.
    pub fn message(&self) -> (r: String)
        ensures
            r@ == self.text(),
    {
        match self {
            RecordError::Full => "FDR ring full: record dropped (non-blocking)".to_owned(),
            RecordError::PayloadTooLarge { got, max } => {
                let mut out: String = "payload ".to_owned();
                crate::text::push_decimal(&mut out, *got as u64);
                out.append(" bytes exceeds MAX_PAYLOAD ");
                crate::text::push_decimal(&mut out, *max as u64);
                out
            },
            RecordError::Io(e) => {
                let mut out: String = "FDR I/O error: ".to_owned();
                out.append(e.as_str());
                out
            },
        }
    }
}

/// The frame of `payload`.
pub open spec fn frames(e: FdrEntry, kind: RecordKind, payload: Seq<u8>, timestamp_ns: u64) -> bool {
    &&& e.timestamp_ns == timestamp_ns
    &&& e.payload_len == payload.len()
    &&& e.kind == record_number(kind)
    &&& e.pad == 0
    &&& e.reserved == 0
    &&& e.payload@ == payload + zero_bytes((512 - payload.len()) as nat)
}

impl FdrEntry {
    /// The meaningful payload.
    pub open spec fn content(&self) -> Seq<u8> {
        self.payload@.take(self.payload_len as int)
    }

    /// Builds a frame from `payload` (must fit in [`MAX_PAYLOAD`]).
    pub fn new(kind: RecordKind, payload: &[u8], timestamp_ns: u64) -> (r: Result<
        FdrEntry,
        RecordError,
    >)
        ensures
            match r {
                Ok(e) => payload@.len() <= MAX_PAYLOAD && frames(e, kind, payload@, timestamp_ns)
                    && e.content() == payload@,
                Err(e) => payload@.len() > MAX_PAYLOAD && e == (RecordError::PayloadTooLarge {
                    got: payload@.len() as usize,
                    max: MAX_PAYLOAD,
                }),
            },
    {
        if payload.len() > MAX_PAYLOAD {
            return Err(RecordError::PayloadTooLarge { got: payload.len(), max: MAX_PAYLOAD });
        }
        let e: FdrEntry = FdrEntry {
            timestamp_ns,
            payload_len: payload.len() as u16,
            kind: kind.as_u8(),
            pad: 0,
            reserved: 0,
            payload: filled(payload),
        };
        assert(e.content() =~= payload@);
        Ok(e)
    }

    /// The kind, or `None` for an unrecognized number.
    pub fn kind(&self) -> (r: Option<RecordKind>)
        ensures
            r == record_kind(self.kind),
    {
        RecordKind::from_u8(self.kind)
    }

    /// The meaningful payload slice.
    pub fn payload(&self) -> (r: &[u8])
        requires
            self.payload_len <= MAX_PAYLOAD,
        ensures
            r@ == self.content(),
    {
        let r: &[u8] = vstd::slice::slice_subrange(
            self.payload.as_slice(),
            0,
            self.payload_len as usize,
        );
        assert(r@ =~= self.content());
        r
    }
}

/// The frames in a recorder stream, up to the end marker or a part that is too
/// short for a frame.
pub open spec fn entries_in(data: Seq<u8>) -> Seq<FdrEntry>
    decreases data.len(),
{
    if data.len() < 528 {
        Seq::empty()
    } else {
        let e = decoded::<FdrEntry>(data);
        if record_kind(e.kind) == Some(RecordKind::End) {
            Seq::empty()
        } else {
            seq![e] + entries_in(data.skip(528))
        }
    }
}

/// The bytes of several frames.
pub open spec fn stream(entries: Seq<FdrEntry>) -> Seq<u8>
    decreases entries.len(),
{
    if entries.len() == 0 {
        Seq::empty()
    } else {
        entries[0].wire() + stream(entries.drop_first())
    }
}

/// Parses a raw recorder byte stream back into frames, stopping at the end
/// marker or on truncation.
pub fn parse_entries(data: &[u8]) -> (r: Vec<FdrEntry>)
    ensures
        r@ == entries_in(data@),
{
    let mut out: Vec<FdrEntry> = Vec::new();
    let mut off: usize = 0;
    proof {
        assert(data@.skip(0) =~= data@);
        assert(out@ + entries_in(data@) =~= entries_in(data@));
    }
    while data.len() - off >= 528
        invariant
            off <= data@.len(),
            out@ + entries_in(data@.skip(off as int)) == entries_in(data@),
        decreases data@.len() - off,
    {
        let ghost rest = data@.skip(off as int);
        let part: &[u8] = vstd::slice::slice_subrange(data, off, off + 528);
        match from_bytes_aligned::<FdrEntry>(part) {
            Some(e) => {
                proof {
                    assert(part@.take(528) =~= rest.take(528));
                    lemma_decoded_is(rest, e);
                }
                if matches!(e.kind(), Some(RecordKind::End)) {
                    assert(out@ + Seq::<FdrEntry>::empty() =~= out@);
                    return out;
                }
                let ghost before = out@;
                out.push(e);
                proof {
                    assert(rest.skip(528) =~= data@.skip(off + 528));
                    assert(before + (seq![e] + entries_in(data@.skip(off + 528))) =~= out@
                        + entries_in(data@.skip(off + 528)));
                }
                off = off + 528;
            },
            None => {
                return out;
            },
        }
    }
    proof {
        assert(out@ + Seq::<FdrEntry>::empty() =~= out@);
    }
    out
}

/// No frame is an end marker.
pub open spec fn no_marker(entries: Seq<FdrEntry>) -> bool {
    forall|i: int|
        0 <= i < entries.len() ==> record_kind((#[trigger] entries[i]).kind) != Some(
            RecordKind::End,
        )
}

/// Reading a recorder stream gives the frames back: the frames as written,
/// then an end marker, then anything at all.
pub proof fn law_stream_reads_back(entries: Seq<FdrEntry>, marker: FdrEntry, more: Seq<u8>)
    requires
        no_marker(entries),
        record_kind(marker.kind) == Some(RecordKind::End),
    ensures
        entries_in(stream(entries) + marker.wire() + more) == entries,
    decreases entries.len(),
{
    let data = stream(entries) + marker.wire() + more;
    if entries.len() == 0 {
        assert(data =~= marker.wire() + more);
        law_decoded_reads_back(marker, more);
        marker.lemma_wire_len();
        assert(entries =~= Seq::<FdrEntry>::empty());
    } else {
        let e = entries[0];
        let rest = entries.drop_first();
        let tail = stream(rest) + marker.wire() + more;
        assert(data =~= e.wire() + tail);
        e.lemma_wire_len();
        law_decoded_reads_back(e, tail);
        assert((e.wire() + tail).skip(528) =~= tail);
        assert forall|i: int| 0 <= i < rest.len() implies record_kind((#[trigger] rest[i]).kind)
            != Some(RecordKind::End) by {
            assert(rest[i] == entries[i + 1]);
        }
        law_stream_reads_back(rest, marker, more);
        assert(seq![e] + rest =~= entries);
    }
}

/// Producer-side handle. Publishes records into the ring without ever blocking
/// (a full ring returns [`RecordError::Full`] immediately).
pub struct FdrSink {
    ring: SpscRing<FdrEntry>,
}

impl View for FdrSink {
    type V = Seq<FdrEntry>;

    /// The frames buffered for the storage thread, oldest first.
    closed spec fn view(&self) -> Seq<FdrEntry> {
        self.ring@
    }
}

/// What publishing `payload` does to the buffered frames, and what it returns.
pub open spec fn records(
    before: Seq<FdrEntry>,
    after: Seq<FdrEntry>,
    limit: nat,
    kind: RecordKind,
    payload: Seq<u8>,
    timestamp_ns: u64,
    r: Result<(), RecordError>,
) -> bool {
    if payload.len() > MAX_PAYLOAD {
        &&& after == before
        &&& r == Err::<(), RecordError>(
            RecordError::PayloadTooLarge { got: payload.len() as usize, max: MAX_PAYLOAD },
        )
    } else if before.len() >= limit {
        after == before && r == Err::<(), RecordError>(RecordError::Full)
    } else {
        &&& r is Ok
        &&& after.len() == before.len() + 1
        &&& after.drop_last() == before
        &&& frames(after.last(), kind, payload, timestamp_ns)
    }
}

impl FdrSink {
    pub closed spec fn wf(&self) -> bool {
        self.ring.wf()
    }

    /// How many frames can be buffered.
    pub closed spec fn limit(&self) -> nat {
        self.ring.limit()
    }

    /// Wraps the producer half of `ring`.
    pub fn new(ring: SpscRing<FdrEntry>) -> (s: FdrSink)
        requires
            ring.wf(),
        ensures
            s.wf(),
            s@ == ring@,
            s.limit() == ring.limit(),
    {
        FdrSink { ring }
    }

    /// Publishes `payload` of `kind` stamped at `timestamp_ns`.
    ///
    /// Returns [`RecordError::Full`] if the ring is full: the caller sheds the
    /// record rather than stalling the control loop.
    pub fn try_record(&mut self, kind: RecordKind, payload: &[u8], timestamp_ns: u64) -> (r: Result<
        (),
        RecordError,
    >)
        requires
            old(self).wf(),
        ensures
            final(self).wf(),
            final(self).limit() == old(self).limit(),
            records(
                old(self)@,
                final(self)@,
                old(self).limit(),
                kind,
                payload@,
                timestamp_ns,
                r,
            ),
    {
        let e: FdrEntry = match FdrEntry::new(kind, payload, timestamp_ns) {
            Ok(e) => e,
            Err(err) => {
                return Err(err);
            },
        };
        proof {
            self.ring.lemma_bounded();
        }
        match self.ring.push(e) {
            Ok(_) => {
                assert(self@.drop_last() =~= old(self)@);
                Ok(())
            },
            Err(_) => Err(RecordError::Full),
        }
    }

    /// Convenience: logs a [`ControlCommand`].
    pub fn try_control(&mut self, c: &ControlCommand) -> (r: Result<(), RecordError>)
        requires
            old(self).wf(),
        ensures
            final(self).wf(),
            final(self).limit() == old(self).limit(),
            records(
                old(self)@,
                final(self)@,
                old(self).limit(),
                RecordKind::Control,
                c.wire(),
                c.timestamp_ns,
                r,
            ),
    {
        let b: Vec<u8> = bytes_of(c);
        self.try_record(RecordKind::Control, b.as_slice(), c.timestamp_ns)
    }

    /// Convenience: logs an [`ImuSample`].
    pub fn try_imu(&mut self, s: &ImuSample) -> (r: Result<(), RecordError>)
        requires
            old(self).wf(),
        ensures
            final(self).wf(),
            final(self).limit() == old(self).limit(),
            records(
                old(self)@,
                final(self)@,
                old(self).limit(),
                RecordKind::Imu,
                s.wire(),
                s.timestamp_ns,
                r,
            ),
    {
        let b: Vec<u8> = bytes_of(s);
        self.try_record(RecordKind::Imu, b.as_slice(), s.timestamp_ns)
    }

    /// Convenience: logs a [`GpsSample`].
    pub fn try_gps(&mut self, s: &GpsSample) -> (r: Result<(), RecordError>)
        requires
            old(self).wf(),
        ensures
            final(self).wf(),
            final(self).limit() == old(self).limit(),
            records(
                old(self)@,
                final(self)@,
                old(self).limit(),
                RecordKind::Gps,
                s.wire(),
                s.timestamp_ns,
                r,
            ),
    {
        let b: Vec<u8> = bytes_of(s);
        self.try_record(RecordKind::Gps, b.as_slice(), s.timestamp_ns)
    }

    /// Convenience: logs a [`TelemetryPacket`].
    pub fn try_telemetry(&mut self, s: &TelemetryPacket) -> (r: Result<(), RecordError>)
        requires
            old(self).wf(),
        ensures
            final(self).wf(),
            final(self).limit() == old(self).limit(),
            records(
                old(self)@,
                final(self)@,
                old(self).limit(),
                RecordKind::Telemetry,
                s.wire(),
                s.timestamp_ns,
                r,
            ),
    {
        let b: Vec<u8> = bytes_of(s);
        self.try_record(RecordKind::Telemetry, b.as_slice(), s.timestamp_ns)
    }

    /// True when a subsequent [`try_record`](Self::try_record) would shed.
    pub fn is_full(&self) -> (r: bool)
        requires
            self.wf(),
        ensures
            r == (self@.len() == self.limit()),
    {
        self.ring.is_full()
    }

    /// Number of frames currently buffered for the storage thread.
    pub fn pending(&self) -> (r: usize)
        requires
            self.wf(),
        ensures
            r == self@.len(),
    {
        self.ring.len()
    }

    /// Takes the oldest buffered frame, for the storage thread.
    pub fn take(&mut self) -> (r: Option<FdrEntry>)
        requires
            old(self).wf(),
        ensures
            final(self).wf(),
            final(self).limit() == old(self).limit(),
            match r {
                Some(e) => old(self)@.len() > 0 && e == old(self)@[0] && final(self)@
                    == old(self)@.drop_first(),
                None => old(self)@.len() == 0 && final(self)@ == old(self)@,
            },
    {
        self.ring.pop()
    }
}

/// Consumer-side writer. Drains a sink and hands over the sectors to write,
/// with an end marker last.
pub struct FdrWriter {
    file: DirectFile,
}

impl View for FdrWriter {
    type V = Seq<u8>;

    /// The bytes that are staged.
    closed spec fn view(&self) -> Seq<u8> {
        self.file@
    }
}

proof fn lemma_stream_push(entries: Seq<FdrEntry>, e: FdrEntry)
    ensures
        stream(entries.push(e)) == stream(entries) + e.wire(),
    decreases entries.len(),
{
    let all = entries.push(e);
    if entries.len() == 0 {
        assert(all.drop_first() =~= Seq::<FdrEntry>::empty());
        assert(stream(all.drop_first()) =~= Seq::<u8>::empty());
        assert(stream(all) =~= e.wire());
        assert(stream(entries) + e.wire() =~= e.wire());
    } else {
        lemma_stream_push(entries.drop_first(), e);
        assert(all.drop_first() =~= entries.drop_first().push(e));
        assert(stream(all) =~= stream(entries) + e.wire());
    }
}

impl FdrWriter {
    pub closed spec fn wf(&self) -> bool {
        self.file.wf()
    }

    /// How many bytes went to the kernel.
    pub closed spec fn total(&self) -> u64 {
        self.file.total()
    }

    /// Starts a writer on a file that the operating system opened, with direct
    /// I/O where `direct` says so.
    pub fn open(direct: bool) -> (w: FdrWriter)
        ensures
            w.wf(),
            w@ == Seq::<u8>::empty(),
            w.total() == 0,
            w.bypasses_cache() == direct,
    {
        FdrWriter { file: DirectFile::open(direct) }
    }

    /// Whether the underlying file is using true direct I/O.
    pub fn is_direct(&self) -> (r: bool)
        ensures
            r == self.bypasses_cache(),
    {
        self.file.is_direct()
    }

    /// Whether the file bypasses the page cache.
    pub closed spec fn bypasses_cache(&self) -> bool {
        self.file.bypasses_cache()
    }

    /// Bytes written to the kernel so far (sector-multiple writes only).
    pub fn written(&self) -> (r: u64)
        ensures
            r == self.total(),
    {
        self.file.written()
    }

    /// Drains every currently-available frame. Returns how many frames there
    /// were and the whole sectors that are now due.
    pub fn drain_once(&mut self, sink: &mut FdrSink) -> (r: (usize, Vec<u8>))
        requires
            old(self).wf(),
            old(sink).wf(),
        ensures
            final(self).wf(),
            final(sink).wf(),
            final(sink).limit() == old(sink).limit(),
            final(sink)@ == Seq::<FdrEntry>::empty(),
            r.0 == old(sink)@.len(),
            r.1@.len() == whole_sectors(old(self)@.len() + stream(old(sink)@).len()),
            r.1@ + final(self)@ == old(self)@ + stream(old(sink)@),
            final(self).total() == counted(old(self).total(), r.1@.len()),
            final(self).bypasses_cache() == old(self).bypasses_cache(),
    {
        let mut n: usize = 0;
        let mut out: Vec<u8> = Vec::new();
        let ghost all = sink@;
        proof {
            sink.ring.lemma_bounded();
            assert(all.skip(0) =~= all);
            assert(all.take(0) =~= Seq::<FdrEntry>::empty());
            assert(out@ + self@ =~= old(self)@ + stream(all.take(0)));
        }
        loop
            invariant
                self.wf(),
                sink.wf(),
                sink.limit() == old(sink).limit(),
                all == old(sink)@,
                all.len() <= usize::MAX,
                n <= all.len(),
                sink@ == all.skip(n as int),
                out@.len() % 4096 == 0,
                out@ + self@ == old(self)@ + stream(all.take(n as int)),
                self.total() == counted(old(self).total(), out@.len()),
                self.bypasses_cache() == old(self).bypasses_cache(),
            ensures
                n == all.len(),
                sink@ == Seq::<FdrEntry>::empty(),
            decreases all.len() - n,
        {
            match sink.take() {
                Some(e) => {
                    let ghost staged = self@;
                    let ghost emitted = out@;
                    let b: Vec<u8> = bytes_of(&e);
                    let mut due: Vec<u8> = self.file.write(b.as_slice());
                    proof {
                        assert(all.skip(n as int)[0] == all[n as int]);
                        assert(all.skip(n as int).drop_first() =~= all.skip(n + 1));
                        assert(all.take(n + 1) =~= all.take(n as int).push(e));
                        lemma_stream_push(all.take(n as int), e);
                        assert((emitted + due@) + self@ =~= emitted + (due@ + self@));
                        assert(emitted + (staged + e.wire()) =~= (emitted + staged) + e.wire());
                        assert((old(self)@ + stream(all.take(n as int))) + e.wire() =~= old(self)@
                            + stream(all.take(n + 1)));
                    }
                    out.append(&mut due);
                    n = n + 1;
                },
                None => {
                    assert(sink@ =~= Seq::<FdrEntry>::empty());
                    break;
                },
            }
        }
        proof {
            assert(all.take(n as int) =~= all);
            assert(out@.len() + self@.len() == old(self)@.len() + stream(all).len());
        }
        (n, out)
    }

    /// Ends the stream: returns the sectors that hold what is staged and the
    /// end marker, padded with zeros.
    pub fn finish(&mut self) -> (r: Vec<u8>)
        requires
            old(self).wf(),
        ensures
            final(self).wf(),
            final(self)@ == Seq::<u8>::empty(),
            final(self).total() == counted(old(self).total(), r@.len()),
            final(self).bypasses_cache() == old(self).bypasses_cache(),
            exists|marker: FdrEntry|
                frames(marker, RecordKind::End, Seq::empty(), 0) && r@ == padded(
                    old(self)@ + #[trigger] marker.wire(),
                ),
    {
        let empty: [u8; 0] = [];
        assert(empty@ =~= Seq::<u8>::empty());
        let marker: FdrEntry = match FdrEntry::new(RecordKind::End, empty.as_slice(), 0) {
            Ok(e) => e,
            Err(_) => {
                assert(false);
                FdrEntry {
                    timestamp_ns: 0,
                    payload_len: 0,
                    kind: 255,
                    pad: 0,
                    reserved: 0,
                    payload: [0u8; 512],
                }
            },
        };
        let b: Vec<u8> = bytes_of(&marker);
        let mut out: Vec<u8> = self.file.write(b.as_slice());
        let ghost due = out@;
        let ghost staged = self@;
        let mut last: Vec<u8> = self.file.flush();
        proof {
            let all = old(self)@ + marker.wire();
            assert(due + staged == all);
            assert(due + padded(staged) =~= padded(all)) by {
                assert(all.len() == due.len() + staged.len());
                assert(all.len() % 4096 == staged.len() % 4096);
                assert(staged.len() % 4096 == staged.len());
            }
        }
        out.append(&mut last);
        out
    }
}

/// A finished recording gives back the frames that were published: whatever
/// was drained, then the end marker, padded to whole sectors.
pub proof fn law_recording_reads_back(entries: Seq<FdrEntry>, marker: FdrEntry)
    requires
        no_marker(entries),
        frames(marker, RecordKind::End, Seq::empty(), 0),
    ensures
        entries_in(padded(stream(entries) + marker.wire())) == entries,
{
    let all = stream(entries) + marker.wire();
    let more = if all.len() % 4096 == 0 {
        Seq::empty()
    } else {
        zero_bytes((4096 - all.len() % 4096) as nat)
    };
    assert(padded(all) =~= all + more);
    law_stream_reads_back(entries, marker, more);
}

/// A frame holds what was recorded: the payload, byte for byte, its kind under
/// its number, and the time.
pub proof fn law_frame_holds_the_record(
    e: FdrEntry,
    kind: RecordKind,
    payload: Seq<u8>,
    timestamp_ns: u64,
)
    requires
        frames(e, kind, payload, timestamp_ns),
        payload.len() <= 512,
    ensures
        e.content() == payload,
        e.timestamp_ns == timestamp_ns,
        e.kind == (match kind {
            RecordKind::Control => 0u8,
            RecordKind::Imu => 1,
            RecordKind::Gps => 2,
            RecordKind::Telemetry => 3,
            RecordKind::End => 255,
        }),
{
    assert(e.content() =~= payload);
}

/// A record is taken exactly if its payload has at most 512 bytes and the ring has
/// room; otherwise the ring stays as it is, and the error says which it was.
pub proof fn law_records_are_taken_with_room(
    before: Seq<FdrEntry>,
    after: Seq<FdrEntry>,
    limit: nat,
    kind: RecordKind,
    payload: Seq<u8>,
    timestamp_ns: u64,
    r: Result<(), RecordError>,
)
    requires
        records(before, after, limit, kind, payload, timestamp_ns, r),
    ensures
        r is Ok <==> payload.len() <= 512 && before.len() < limit,
        r is Err ==> after == before,
        payload.len() > 512 ==> (r matches Err(RecordError::PayloadTooLarge { got, max }) && max
            == 512),
        payload.len() <= 512 && before.len() >= limit ==> r matches Err(RecordError::Full),
        r is Ok ==> after.len() == before.len() + 1 && before.is_prefix_of(after)
            && after.last().content() == payload && after.last().timestamp_ns == timestamp_ns,
{
    if r is Ok {
        law_frame_holds_the_record(after.last(), kind, payload, timestamp_ns);
        assert(before =~= after.subrange(0, before.len() as int));
    }
}

/// What is left of a frame that was cut off at the end is passed over.
pub proof fn law_cut_off_frame_is_passed_over(entries: Seq<FdrEntry>, rest: Seq<u8>)
    requires
        no_marker(entries),
        rest.len() < 528,
    ensures
        entries_in(stream(entries) + rest) == entries,
    decreases entries.len(),
{
    if entries.len() == 0 {
        assert(stream(entries) + rest =~= rest);
        assert(entries_in(rest) =~= entries);
    } else {
        let e = entries[0];
        let tail = entries.drop_first();
        let data = stream(entries) + rest;
        let more = stream(tail) + rest;
        e.lemma_wire_len();
        assert(data =~= e.wire() + more);
        law_decoded_reads_back(e, more);
        assert(data.skip(528) =~= more);
        assert forall|i: int| 0 <= i < tail.len() implies record_kind((#[trigger] tail[i]).kind)
            != Some(RecordKind::End) by {
            assert(tail[i] == entries[i + 1]);
        }
        law_cut_off_frame_is_passed_over(tail, rest);
        assert(record_kind(entries[0].kind) != Some(RecordKind::End));
        assert(entries_in(data) =~= entries);
    }
}

} // verus!
