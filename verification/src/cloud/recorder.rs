//! Session recording: raw payloads as a byte stream.
//!
//! A recording is a header followed by frames of
//! `[channel][seq][len][payload]`. Nothing is compressed: the bytes are exactly
//! the payloads that the link layer produced.
use vstd::prelude::*;
use crate::bytes::{
    le, le_value, lemma_le_len, lemma_le_ranges, lemma_le_reads_back, push_le, push_slice, read_le,
};

verus! {

/// Largest payload that one datagram of the link carries.
pub const LINK_MAX_PAYLOAD: usize = 1400;

/// Magic marking a session-recording file (`"TPTREC\0\0"`).
pub const REC_MAGIC: u64 = 0x5450_5452_4543_0000;

/// Recording container format revision.
pub const REC_VERSION: u16 = 1;

/// Length of the header of a recording.
pub const HEADER_LEN: usize = 18;

/// One frame of a recording.
#[verifier::ext_equal]
pub ghost struct Frame {
    pub channel: u8,
    pub seq: u64,
    pub payload: Seq<u8>,
}

/// A sink that persists raw frames for a session.
pub trait Recorder: Sized {
    /// How many frames were recorded.
    spec fn count(&self) -> u64;

    /// Recording `frame` can lead from `before` to `after` with the outcome `r`.
    spec fn records(before: Self, after: Self, frame: Frame, r: Result<(), String>) -> bool;

    /// Appends one frame (raw payload bytes) with its channel tag and sequence.
    fn record(&mut self, channel: u8, seq: u64, payload: &[u8]) -> (r: Result<(), String>)
        ensures
            Self::records(
                *old(self),
                *final(self),
                (Frame { channel, seq, payload: payload@ }),
                r,
            ),
    ;

    /// Number of frames recorded so far.
    fn frames(&self) -> (r: u64)
        ensures
            r == self.count(),
    ;
}

/// One more, up to the largest count.
pub open spec fn one_more(n: u64) -> u64 {
    if n == u64::MAX {
        u64::MAX
    } else {
        (n + 1) as u64
    }
}

/// A recorder that discards everything (used when recording is disabled).
#[derive(Debug, Clone)]
pub struct NullRecorder {
    count: u64,
}

impl NullRecorder {
    /// A no-op recorder.
    pub fn new() -> (r: NullRecorder)
        ensures
            r.count() == 0,
    {
        NullRecorder { count: 0 }
    }
}

impl Default for NullRecorder {
    fn default() -> (r: NullRecorder)
        ensures
            r.count() == 0,
    {
        NullRecorder::new()
    }
}

impl Recorder for NullRecorder {
    closed spec fn count(&self) -> u64 {
        self.count
    }

    open spec fn records(
        before: NullRecorder,
        after: NullRecorder,
        frame: Frame,
        r: Result<(), String>,
    ) -> bool {
        r is Ok && after.count() == one_more(before.count())
    }

    fn record(&mut self, channel: u8, seq: u64, payload: &[u8]) -> (r: Result<(), String>) {
        self.count = self.count.saturating_add(1);
        Ok(())
    }

    fn frames(&self) -> (r: u64) {
        self.count
    }
}

/// An in-memory recorder (tests, debugging, or short captures).
#[derive(Debug, Clone)]
pub struct VecRecorder {
    /// Recorded frames as `(channel, seq, payload)`.
    pub frames: Vec<(u8, u64, Vec<u8>)>,
}

impl View for VecRecorder {
    type V = Seq<Frame>;

    open spec fn view(&self) -> Seq<Frame> {
        self.frames@.map_values(
            |f: (u8, u64, Vec<u8>)| Frame { channel: f.0, seq: f.1, payload: f.2@ },
        )
    }
}

impl VecRecorder {
    /// An empty in-memory recorder.
    pub fn new() -> (r: VecRecorder)
        ensures
            r@ == Seq::<Frame>::empty(),
    {
        let r: VecRecorder = VecRecorder { frames: Vec::new() };
        assert(r@ =~= Seq::<Frame>::empty());
        r
    }
}

impl Default for VecRecorder {
    fn default() -> (r: VecRecorder)
        ensures
            r@ == Seq::<Frame>::empty(),
    {
        VecRecorder::new()
    }
}

impl Recorder for VecRecorder {
    open spec fn count(&self) -> u64 {
        self@.len() as u64
    }

    open spec fn records(
        before: VecRecorder,
        after: VecRecorder,
        frame: Frame,
        r: Result<(), String>,
    ) -> bool {
        r is Ok && after@ == before@.push(frame)
    }

    fn record(&mut self, channel: u8, seq: u64, payload: &[u8]) -> (r: Result<(), String>) {
        let copy: Vec<u8> = vstd::slice::slice_to_vec(payload);
        self.frames.push((channel, seq, copy));
        assert(self@ =~= old(self)@.push(Frame { channel, seq, payload: payload@ }));
        Ok(())
    }

    fn frames(&self) -> (r: u64) {
        self.frames.len() as u64
    }
}

// --- The recording container -------------------------------------------------

/// The header of a recording.
pub open spec fn header_of(unit_id: u64) -> Seq<u8> {
    le(REC_MAGIC as nat, 8) + le(REC_VERSION as nat, 2) + le(unit_id as nat, 8)
}

/// The bytes of one frame.
pub open spec fn frame_bytes(f: Frame) -> Seq<u8> {
    seq![f.channel] + le(f.seq as nat, 8) + le(f.payload.len(), 4) + f.payload
}

/// The bytes of several frames.
pub open spec fn frames_bytes(fs: Seq<Frame>) -> Seq<u8>
    decreases fs.len(),
{
    if fs.len() == 0 {
        Seq::empty()
    } else {
        frame_bytes(fs[0]) + frames_bytes(fs.drop_first())
    }
}

/// The header of a new recording.
pub fn recording_header(unit_id: u64) -> (r: Vec<u8>)
    ensures
        r@ == header_of(unit_id),
{
    let mut out: Vec<u8> = Vec::new();
    push_le(&mut out, REC_MAGIC, 8);
    push_le(&mut out, REC_VERSION as u64, 2);
    push_le(&mut out, unit_id, 8);
    assert(out@ =~= header_of(unit_id));
    out
}

/// The bytes to append for one frame. A payload that no datagram carries is
/// refused.
pub fn encode_frame(channel: u8, seq: u64, payload: &[u8]) -> (r: Result<Vec<u8>, String>)
    ensures
        match r {
            Ok(b) => {
                &&& payload@.len() <= LINK_MAX_PAYLOAD
                &&& b@ == frame_bytes(Frame { channel, seq, payload: payload@ })
            },
            Err(e) => {
                &&& payload@.len() > LINK_MAX_PAYLOAD
                &&& e@ == "payload exceeds recording MTU"@
            },
        },
{
    if payload.len() > LINK_MAX_PAYLOAD {
        return Err("payload exceeds recording MTU".to_owned());
    }
    let mut out: Vec<u8> = Vec::new();
    out.push(channel);
    push_le(&mut out, seq, 8);
    push_le(&mut out, payload.len() as u64, 4);
    push_slice(&mut out, payload);
    assert(out@ =~= frame_bytes(Frame { channel, seq, payload: payload@ }));
    Ok(out)
}

/// One decoded recording frame.
#[derive(Debug, Clone, PartialEq, Eq)]
pub struct RecordedFrame {
    /// Channel tag.
    pub channel: u8,
    /// Sequence number.
    pub seq: u64,
    /// Raw payload bytes.
    pub payload: Vec<u8>,
}

impl View for RecordedFrame {
    type V = Frame;

    open spec fn view(&self) -> Frame {
        Frame { channel: self.channel, seq: self.seq, payload: self.payload@ }
    }
}

/// The frames in `data`. Fewer than 13 bytes at the end are left aside; `None`
/// where a payload is cut short.
pub open spec fn frames_in(data: Seq<u8>) -> Option<Seq<Frame>>
    decreases data.len(),
{
    if data.len() < 13 {
        Some(Seq::empty())
    } else {
        let len = le_value(data.subrange(9, 13));
        if 13 + len > data.len() {
            None
        } else {
            let f = Frame {
                channel: data[0],
                seq: le_value(data.subrange(1, 9)) as u64,
                payload: data.subrange(13, (13 + len) as int),
            };
            match frames_in(data.skip((13 + len) as int)) {
                Some(rest) => Some(seq![f] + rest),
                None => None,
            }
        }
    }
}

/// What a recording reads as.
pub open spec fn recording_in(data: Seq<u8>) -> Result<Seq<Frame>, Seq<char>> {
    if data.len() < 18 {
        Err("file too short"@)
    } else if le_value(data.take(8)) != REC_MAGIC {
        Err("bad recording magic"@)
    } else {
        match frames_in(data.skip(18)) {
            Some(fs) => Ok(fs),
            None => Err("truncated frame"@),
        }
    }
}

/// The frames of several decoded ones.
pub open spec fn decoded_frames(v: Seq<RecordedFrame>) -> Seq<Frame> {
    v.map_values(|f: RecordedFrame| f@)
}

/// Reads every frame back from the bytes of a recording.
pub fn read_frames(data: &[u8]) -> (r: Result<Vec<RecordedFrame>, String>)
    ensures
        match r {
            Ok(v) => recording_in(data@) == Ok::<Seq<Frame>, Seq<char>>(decoded_frames(v@)),
            Err(e) => recording_in(data@) == Err::<Seq<Frame>, Seq<char>>(e@),
        },
{
    if data.len() < HEADER_LEN {
        return Err("file too short".to_owned());
    }
    let magic: u64 = read_le(data, 0, 8);
    assert(data@.subrange(0, 8) =~= data@.take(8));
    if magic != REC_MAGIC {
        return Err("bad recording magic".to_owned());
    }
    let mut out: Vec<RecordedFrame> = Vec::new();
    let mut i: usize = HEADER_LEN;
    proof {
        assert(decoded_frames(out@) =~= Seq::<Frame>::empty());
        if let Some(all) = frames_in(data@.skip(18)) {
            assert(Seq::<Frame>::empty() + all =~= all);
        }
    }
    while data.len() - i >= 13
        invariant
            18 <= i <= data@.len(),
            le_value(data@.take(8)) == REC_MAGIC,
            frames_in(data@.skip(18)) is Some <==> frames_in(data@.skip(i as int)) is Some,
            frames_in(data@.skip(18)) is Some ==> frames_in(data@.skip(18))->0
                == decoded_frames(out@) + frames_in(data@.skip(i as int))->0,
        decreases data@.len() - i,
    {
        let ghost rest = data@.skip(i as int);
        let channel: u8 = data[i];
        let seq: u64 = read_le(data, i + 1, 8);
        let len: u64 = read_le(data, i + 9, 4);
        proof {
            assert(data@.subrange(i + 1, i + 9) =~= rest.subrange(1, 9));
            assert(data@.subrange(i + 9, i + 13) =~= rest.subrange(9, 13));
        }
        if len > (data.len() - i - 13) as u64 {
            return Err("truncated frame".to_owned());
        }
        let end: usize = i + 13 + len as usize;
        let part: &[u8] = vstd::slice::slice_subrange(data, i + 13, end);
        let payload: Vec<u8> = vstd::slice::slice_to_vec(part);
        let ghost before = decoded_frames(out@);
        let f: RecordedFrame = RecordedFrame { channel, seq, payload };
        let ghost fv = f@;
        out.push(f);
        proof {
            assert(payload@ =~= rest.subrange(13, (13 + len) as int));
            assert(rest.skip((13 + len) as int) =~= data@.skip(end as int));
            assert(decoded_frames(out@) =~= before.push(fv));
            if let Some(more) = frames_in(data@.skip(end as int)) {
                assert(before + (seq![fv] + more) =~= decoded_frames(out@) + more);
            }
        }
        i = end;
    }
    proof {
        assert(decoded_frames(out@) + Seq::<Frame>::empty() =~= decoded_frames(out@));
    }
    Ok(out)
}

proof fn lemma_frames_read_back(fs: Seq<Frame>)
    requires
        forall|i: int| 0 <= i < fs.len() ==> (#[trigger] fs[i]).payload.len() <= LINK_MAX_PAYLOAD,
    ensures
        frames_in(frames_bytes(fs)) == Some(fs),
    decreases fs.len(),
{
    if fs.len() == 0 {
        assert(fs =~= Seq::<Frame>::empty());
    } else {
        let f = fs[0];
        let rest = fs.drop_first();
        let n = f.payload.len();
        let b = frames_bytes(fs);
        lemma_le_len(f.seq as nat, 8);
        lemma_le_len(n, 4);
        lemma_le_ranges();
        lemma_le_reads_back(f.seq as nat, 8);
        lemma_le_reads_back(n, 4);
        assert(b.subrange(1, 9) =~= le(f.seq as nat, 8));
        assert(b.subrange(9, 13) =~= le(n, 4));
        assert(b.subrange(13, (13 + n) as int) =~= f.payload);
        assert(b.skip((13 + n) as int) =~= frames_bytes(rest));
        assert forall|i: int| 0 <= i < rest.len() implies (#[trigger] rest[i]).payload.len()
            <= LINK_MAX_PAYLOAD by {
            assert(rest[i] == fs[i + 1]);
        }
        lemma_frames_read_back(rest);
        assert(seq![f] + rest =~= fs);
    }
}

/// Reading a recording gives back the frames that were appended to it.
pub proof fn law_recording_reads_back(unit_id: u64, fs: Seq<Frame>)
    requires
        forall|i: int| 0 <= i < fs.len() ==> (#[trigger] fs[i]).payload.len() <= LINK_MAX_PAYLOAD,
    ensures
        recording_in(header_of(unit_id) + frames_bytes(fs)) == Ok::<Seq<Frame>, Seq<char>>(fs),
{
    let b = header_of(unit_id) + frames_bytes(fs);
    lemma_le_len(REC_MAGIC as nat, 8);
    lemma_le_len(REC_VERSION as nat, 2);
    lemma_le_len(unit_id as nat, 8);
    lemma_le_ranges();
    lemma_le_reads_back(REC_MAGIC as nat, 8);
    assert(b.take(8) =~= le(REC_MAGIC as nat, 8));
    assert(b.skip(18) =~= frames_bytes(fs));
    lemma_frames_read_back(fs);
}

/// A recording that ends within a payload is refused, and one that ends within
/// the 13 bytes before a payload has the frames up to there.
pub proof fn law_cut_off_recording(fs: Seq<Frame>, f: Frame, keep: int)
    requires
        forall|i: int| 0 <= i < fs.len() ==> (#[trigger] fs[i]).payload.len() <= LINK_MAX_PAYLOAD,
        f.payload.len() <= LINK_MAX_PAYLOAD,
        0 <= keep < 13 + f.payload.len(),
    ensures
        keep < 13 ==> frames_in(frames_bytes(fs) + frame_bytes(f).take(keep)) == Some(fs),
        keep >= 13 ==> frames_in(frames_bytes(fs) + frame_bytes(f).take(keep)) is None,
    decreases fs.len(),
{
    lemma_frame_parts(f);
    let rest = frame_bytes(f).take(keep);
    if fs.len() == 0 {
        assert(frames_bytes(fs) + rest =~= rest);
        if keep < 13 {
            assert(frames_in(rest)->0 =~= fs);
        } else {
            assert(rest.subrange(9, 13) =~= frame_bytes(f).subrange(9, 13));
        }
    } else {
        let g = fs[0];
        let tail = fs.drop_first();
        let data = frames_bytes(fs) + rest;
        let more = frames_bytes(tail) + rest;
        lemma_frame_parts(g);
        assert(data =~= frame_bytes(g) + more);
        assert forall|i: int| 0 <= i < tail.len() implies (#[trigger] tail[i]).payload.len()
            <= LINK_MAX_PAYLOAD by {
            assert(tail[i] == fs[i + 1]);
        }
        law_cut_off_recording(tail, f, keep);
        let n = 13 + g.payload.len() as int;
        assert(data.subrange(9, 13) =~= frame_bytes(g).subrange(9, 13));
        assert(data.subrange(1, 9) =~= frame_bytes(g).subrange(1, 9));
        assert(data.subrange(13, n) =~= g.payload);
        assert(data.skip(n) =~= more);
        assert(data[0] == frame_bytes(g)[0]);
        if keep < 13 {
            assert(seq![g] + tail =~= fs);
        }
    }
}

/// Where the parts of a frame stand in its bytes.
proof fn lemma_frame_parts(f: Frame)
    requires
        f.payload.len() <= LINK_MAX_PAYLOAD,
    ensures
        frame_bytes(f).len() == 13 + f.payload.len(),
        frame_bytes(f)[0] == f.channel,
        le_value(frame_bytes(f).subrange(1, 9)) == f.seq,
        le_value(frame_bytes(f).subrange(9, 13)) == f.payload.len(),
        frame_bytes(f).subrange(13, 13 + f.payload.len() as int) == f.payload,
{
    let b = frame_bytes(f);
    lemma_le_len(f.seq as nat, 8);
    lemma_le_len(f.payload.len(), 4);
    lemma_le_ranges();
    lemma_le_reads_back(f.seq as nat, 8);
    lemma_le_reads_back(f.payload.len(), 4);
    assert(b.subrange(1, 9) =~= le(f.seq as nat, 8));
    assert(b.subrange(9, 13) =~= le(f.payload.len(), 4));
    assert(b.subrange(13, 13 + f.payload.len() as int) =~= f.payload);
}

/// The number of frames goes up by one with every frame, and stays at the largest
/// there is.
pub proof fn law_frames_are_counted_up(n: u64)
    ensures
        n < u64::MAX ==> one_more(n) == n + 1,
        one_more(u64::MAX) == u64::MAX,
{
}

} // verus!
