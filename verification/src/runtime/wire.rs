//! Wire structs and their bytes.
//!
//! Conventions:
//!
//! 1. Every wire struct is plain data with no padding: its bytes are those of
//!    its fields, one after the other, least significant byte first.
//! 2. Archived buffers are aligned to [`WIRE_ALIGN`] (one cache line).
//! 3. Every packet starts with a [`WireFrame`] header (magic + version +
//!    payload length) so link-layer code can validate cheaply.
//! 4. Floating-point fields are held as their bit patterns.
use vstd::prelude::*;
use crate::bytes::{
    le, le_range, lemma_le_len, lemma_le_ranges, lemma_le_reads_back, lemma_le_writes_back, push_le,
    read_le,
};
use crate::runtime::mode::{mode_number, mode_of, Mode};

verus! {

/// Alignment every serialized wire buffer honors.
pub const WIRE_ALIGN: usize = 64;

/// Magic marker `"TPT1"` starting every frame.
pub const FRAME_MAGIC: u32 = 0x5450_5431;

/// Current protocol revision.
pub const PROTOCOL_VERSION: u16 = 1;

/// Flag bit of a command that autonomy issued.
pub const FLAG_AI_ORIGIN: u8 = 1;

/// Magic shared base for all telemetry structs (`"TLM"`).
pub const MAGIC_TELEMETRY: u32 = 0x544C_4D00;

/// A value that is the same as its bytes.
pub trait PlainBytes: Copy {
    /// The bytes of the value.
    spec fn wire(&self) -> Seq<u8>;

    /// How many bytes a value has.
    spec fn wire_len() -> nat;

    /// Every value has that many bytes.
    proof fn lemma_wire_len(&self)
        ensures
            self.wire().len() == Self::wire_len(),
    ;

    /// Values with the same bytes are the same.
    proof fn lemma_wire_injective(a: &Self, b: &Self)
        requires
            a.wire() == b.wire(),
        ensures
            *a == *b,
    ;

    /// How many bytes a value has.
    fn size() -> (r: usize)
        ensures
            r == Self::wire_len(),
            r > 0,
    ;

    /// The bytes of the value.
    fn to_wire(&self) -> (r: Vec<u8>)
        ensures
            r@ == self.wire(),
    ;

    /// The value of the bytes.
    fn from_wire(b: &[u8]) -> (r: Self)
        requires
            b@.len() == Self::wire_len(),
        ensures
            r.wire() == b@,
    ;
}

/// The value whose bytes `b` starts with.
pub open spec fn decoded<T: PlainBytes>(b: Seq<u8>) -> T {
    choose|t: T| #[trigger] t.wire() == b.take(T::wire_len() as int)
}

/// A value with those bytes is the one that is decoded.
pub proof fn lemma_decoded_is<T: PlainBytes>(b: Seq<u8>, t: T)
    requires
        t.wire() == b.take(T::wire_len() as int),
    ensures
        decoded::<T>(b) == t,
{
    let o = decoded::<T>(b);
    assert(o.wire() == b.take(T::wire_len() as int));
    T::lemma_wire_injective(&o, &t);
}

/// The bytes of `v`.
pub fn bytes_of<T: PlainBytes>(v: &T) -> (r: Vec<u8>)
    ensures
        r@ == v.wire(),
{
    v.to_wire()
}

/// The value at the start of `data`, and the bytes after it. `None` where
/// `data` is too short.
pub fn split_prefix<'a, T: PlainBytes>(data: &'a [u8]) -> (r: Option<(T, &'a [u8])>)
    ensures
        match r {
            Some((t, rest)) => {
                &&& data@.len() >= T::wire_len()
                &&& t == decoded::<T>(data@)
                &&& t.wire() == data@.take(T::wire_len() as int)
                &&& rest@ == data@.skip(T::wire_len() as int)
            },
            None => data@.len() < T::wire_len(),
        },
{
    let n: usize = T::size();
    if data.len() < n {
        return None;
    }
    let head: &[u8] = vstd::slice::slice_subrange(data, 0, n);
    let rest: &[u8] = vstd::slice::slice_subrange(data, n, data.len());
    assert(head@ =~= data@.take(n as int));
    assert(rest@ =~= data@.skip(n as int));
    let t: T = T::from_wire(head);
    proof {
        lemma_decoded_is(data@, t);
    }
    Some((t, rest))
}

/// Reconstructs a value from the start of a byte slice. `None` where the slice
/// is too short.
pub fn from_bytes_aligned<T: PlainBytes>(data: &[u8]) -> (r: Option<T>)
    ensures
        match r {
            Some(t) => {
                &&& data@.len() >= T::wire_len()
                &&& t == decoded::<T>(data@)
                &&& t.wire() == data@.take(T::wire_len() as int)
            },
            None => data@.len() < T::wire_len(),
        },
{
    match split_prefix::<T>(data) {
        Some((t, _)) => Some(t),
        None => None,
    }
}

/// Decoding the bytes of a value gives the value back, whatever follows them.
pub proof fn law_decoded_reads_back<T: PlainBytes>(t: T, more: Seq<u8>)
    ensures
        decoded::<T>(t.wire() + more) == t,
{
    t.lemma_wire_len();
    assert((t.wire() + more).take(T::wire_len() as int) =~= t.wire());
    lemma_decoded_is(t.wire() + more, t);
}

/// The bytes of several 32-bit words.
pub open spec fn words(v: Seq<u32>) -> Seq<u8>
    decreases v.len(),
{
    if v.len() == 0 {
        Seq::empty()
    } else {
        le(v[0] as nat, 4) + words(v.drop_first())
    }
}

pub proof fn lemma_words_len(v: Seq<u32>)
    ensures
        words(v).len() == 4 * v.len(),
    decreases v.len(),
{
    if v.len() > 0 {
        lemma_words_len(v.drop_first());
        lemma_le_len(v[0] as nat, 4);
    }
}

proof fn lemma_words_injective(a: Seq<u32>, b: Seq<u32>)
    requires
        a.len() == b.len(),
        words(a) == words(b),
    ensures
        a == b,
    decreases a.len(),
{
    if a.len() > 0 {
        lemma_le_ranges();
        lemma_le_len(a[0] as nat, 4);
        lemma_le_len(b[0] as nat, 4);
        lemma_parts(
            le(a[0] as nat, 4),
            words(a.drop_first()),
            le(b[0] as nat, 4),
            words(b.drop_first()),
        );
        lemma_le_injective(a[0] as nat, b[0] as nat, 4);
        lemma_words_injective(a.drop_first(), b.drop_first());
        assert(a =~= seq![a[0]] + a.drop_first());
        assert(b =~= seq![b[0]] + b.drop_first());
    } else {
        assert(a =~= b);
    }
}

proof fn lemma_le_injective(a: nat, b: nat, len: nat)
    requires
        a < le_range(len),
        b < le_range(len),
        le(a, len) == le(b, len),
    ensures
        a == b,
{
    lemma_le_reads_back(a, len);
    lemma_le_reads_back(b, len);
}

/// Equal sequences whose first parts are equally long have equal parts.
proof fn lemma_parts(a: Seq<u8>, b: Seq<u8>, c: Seq<u8>, d: Seq<u8>)
    requires
        a + b == c + d,
        a.len() == c.len(),
    ensures
        a == c,
        b == d,
{
    assert(a =~= (a + b).take(a.len() as int));
    assert(c =~= (c + d).take(a.len() as int));
    assert(b =~= (a + b).skip(a.len() as int));
    assert(d =~= (c + d).skip(a.len() as int));
}

/// Appends the bytes of several 32-bit words.
pub fn push_words(out: &mut Vec<u8>, v: &[u32])
    ensures
        final(out)@ == old(out)@ + words(v@),
{
    let mut i: usize = 0;
    proof {
        assert(v@.skip(0) =~= v@);
    }
    while i < v.len()
        invariant
            i <= v@.len(),
            out@ + words(v@.skip(i as int)) == old(out)@ + words(v@),
        decreases v@.len() - i,
    {
        let ghost before = out@;
        push_le(out, v[i] as u64, 4);
        proof {
            let rest = v@.skip(i as int);
            assert(rest.drop_first() =~= v@.skip(i + 1));
            assert(out@ + words(v@.skip(i + 1)) =~= before + words(rest));
        }
        i = i + 1;
    }
    proof {
        assert(v@.skip(i as int) =~= Seq::<u32>::empty());
        assert(out@ =~= old(out)@ + words(v@));
    }
}

fn read_u32(b: &[u8], at: usize) -> (r: u32)
    requires
        at + 4 <= b@.len(),
    ensures
        le(r as nat, 4) == b@.subrange(at as int, at + 4),
{
    let v: u64 = read_le(b, at, 4);
    proof {
        lemma_le_ranges();
        lemma_le_writes_back(b@.subrange(at as int, at + 4));
    }
    v as u32
}

fn read_u16(b: &[u8], at: usize) -> (r: u16)
    requires
        at + 2 <= b@.len(),
    ensures
        le(r as nat, 2) == b@.subrange(at as int, at + 2),
{
    let v: u64 = read_le(b, at, 2);
    proof {
        lemma_le_ranges();
        lemma_le_writes_back(b@.subrange(at as int, at + 2));
    }
    v as u16
}

fn read_u8(b: &[u8], at: usize) -> (r: u8)
    requires
        at + 1 <= b@.len(),
    ensures
        le(r as nat, 1) == b@.subrange(at as int, at + 1),
{
    let v: u64 = read_le(b, at, 1);
    proof {
        lemma_le_ranges();
        lemma_le_writes_back(b@.subrange(at as int, at + 1));
    }
    v as u8
}

fn read_u64(b: &[u8], at: usize) -> (r: u64)
    requires
        at + 8 <= b@.len(),
    ensures
        le(r as nat, 8) == b@.subrange(at as int, at + 8),
{
    let v: u64 = read_le(b, at, 8);
    proof {
        lemma_le_writes_back(b@.subrange(at as int, at + 8));
    }
    v
}

/// Link-layer frame header prepended to every payload.
#[derive(Debug, Clone, Copy, PartialEq, Eq)]
pub struct WireFrame {
    /// Always [`FRAME_MAGIC`]; receivers reject anything else.
    pub magic: u32,
    /// Protocol revision ([`PROTOCOL_VERSION`]).
    pub version: u16,
    /// Payload byte count following this header.
    pub payload_len: u16,
}

impl PlainBytes for WireFrame {
    open spec fn wire(&self) -> Seq<u8> {
        le(self.magic as nat, 4) + (le(self.version as nat, 2) + (le(self.payload_len as nat, 2)))
    }

    open spec fn wire_len() -> nat {
        8
    }

    proof fn lemma_wire_len(&self) {
        lemma_le_len(self.magic as nat, 4);
        lemma_le_len(self.version as nat, 2);
        lemma_le_len(self.payload_len as nat, 2);
    }

    proof fn lemma_wire_injective(a: &Self, b: &Self) {
        lemma_le_ranges();
        lemma_le_len(a.magic as nat, 4);
        lemma_le_len(b.magic as nat, 4);
        lemma_parts(
            le(a.magic as nat, 4),
            le(a.version as nat, 2) + (le(a.payload_len as nat, 2)),
            le(b.magic as nat, 4),
            le(b.version as nat, 2) + (le(b.payload_len as nat, 2)),
        );
        lemma_le_injective(a.magic as nat, b.magic as nat, 4);
        lemma_le_len(a.version as nat, 2);
        lemma_le_len(b.version as nat, 2);
        lemma_parts(
            le(a.version as nat, 2),
            le(a.payload_len as nat, 2),
            le(b.version as nat, 2),
            le(b.payload_len as nat, 2),
        );
        lemma_le_injective(a.version as nat, b.version as nat, 2);
        lemma_le_len(a.payload_len as nat, 2);
        lemma_le_len(b.payload_len as nat, 2);
        lemma_le_injective(a.payload_len as nat, b.payload_len as nat, 2);
    }

    fn size() -> (r: usize) {
        8
    }

    fn to_wire(&self) -> (r: Vec<u8>) {
        let mut out: Vec<u8> = Vec::with_capacity(8);
        push_le(&mut out, self.magic as u64, 4);
        push_le(&mut out, self.version as u64, 2);
        push_le(&mut out, self.payload_len as u64, 2);
        assert(out@ =~= self.wire());
        out
    }

    fn from_wire(b: &[u8]) -> (r: Self) {
        let magic: u32 = read_u32(b, 0);
        let version: u16 = read_u16(b, 4);
        let payload_len: u16 = read_u16(b, 6);
        let r: WireFrame = WireFrame { magic, version, payload_len };
        proof {
            assert(r.wire() =~= b@);
        }
        r
    }
}

/// One operator or autonomy command: 48 bytes dense, no padding.
#[derive(Debug, Clone, Copy, PartialEq, Eq)]
pub struct ControlCommand {
    /// Always [`FRAME_MAGIC`].
    pub magic: u32,
    /// Protocol revision ([`PROTOCOL_VERSION`]).
    pub version: u16,
    /// Number of the [`Mode`] to be in.
    pub mode: u8,
    /// Flag bits, [`FLAG_AI_ORIGIN`] among them.
    pub flags: u8,
    /// Monotonic sequence.
    pub seq: u64,
    /// UNIX ns stamp.
    pub timestamp_ns: u64,
    /// Axis values, as bit patterns of single-precision numbers.
    pub axes: [u32; 6],
}

impl PlainBytes for ControlCommand {
    open spec fn wire(&self) -> Seq<u8> {
        le(self.magic as nat, 4) + (le(self.version as nat, 2) + (le(self.mode as nat, 1) + (le(self.flags as nat, 1) + (le(self.seq as nat, 8) + (le(self.timestamp_ns as nat, 8) + (words(self.axes@)))))))
    }

    open spec fn wire_len() -> nat {
        48
    }

    proof fn lemma_wire_len(&self) {
        lemma_le_len(self.magic as nat, 4);
        lemma_le_len(self.version as nat, 2);
        lemma_le_len(self.mode as nat, 1);
        lemma_le_len(self.flags as nat, 1);
        lemma_le_len(self.seq as nat, 8);
        lemma_le_len(self.timestamp_ns as nat, 8);
        lemma_words_len(self.axes@);
    }

    proof fn lemma_wire_injective(a: &Self, b: &Self) {
        lemma_le_ranges();
        lemma_le_len(a.magic as nat, 4);
        lemma_le_len(b.magic as nat, 4);
        lemma_parts(
            le(a.magic as nat, 4),
            le(a.version as nat, 2) + (le(a.mode as nat, 1) + (le(a.flags as nat, 1) + (le(a.seq as nat, 8) + (le(a.timestamp_ns as nat, 8) + (words(a.axes@)))))),
            le(b.magic as nat, 4),
            le(b.version as nat, 2) + (le(b.mode as nat, 1) + (le(b.flags as nat, 1) + (le(b.seq as nat, 8) + (le(b.timestamp_ns as nat, 8) + (words(b.axes@)))))),
        );
        lemma_le_injective(a.magic as nat, b.magic as nat, 4);
        lemma_le_len(a.version as nat, 2);
        lemma_le_len(b.version as nat, 2);
        lemma_parts(
            le(a.version as nat, 2),
            le(a.mode as nat, 1) + (le(a.flags as nat, 1) + (le(a.seq as nat, 8) + (le(a.timestamp_ns as nat, 8) + (words(a.axes@))))),
            le(b.version as nat, 2),
            le(b.mode as nat, 1) + (le(b.flags as nat, 1) + (le(b.seq as nat, 8) + (le(b.timestamp_ns as nat, 8) + (words(b.axes@))))),
        );
        lemma_le_injective(a.version as nat, b.version as nat, 2);
        lemma_le_len(a.mode as nat, 1);
        lemma_le_len(b.mode as nat, 1);
        lemma_parts(
            le(a.mode as nat, 1),
            le(a.flags as nat, 1) + (le(a.seq as nat, 8) + (le(a.timestamp_ns as nat, 8) + (words(a.axes@)))),
            le(b.mode as nat, 1),
            le(b.flags as nat, 1) + (le(b.seq as nat, 8) + (le(b.timestamp_ns as nat, 8) + (words(b.axes@)))),
        );
        lemma_le_injective(a.mode as nat, b.mode as nat, 1);
        lemma_le_len(a.flags as nat, 1);
        lemma_le_len(b.flags as nat, 1);
        lemma_parts(
            le(a.flags as nat, 1),
            le(a.seq as nat, 8) + (le(a.timestamp_ns as nat, 8) + (words(a.axes@))),
            le(b.flags as nat, 1),
            le(b.seq as nat, 8) + (le(b.timestamp_ns as nat, 8) + (words(b.axes@))),
        );
        lemma_le_injective(a.flags as nat, b.flags as nat, 1);
        lemma_le_len(a.seq as nat, 8);
        lemma_le_len(b.seq as nat, 8);
        lemma_parts(
            le(a.seq as nat, 8),
            le(a.timestamp_ns as nat, 8) + (words(a.axes@)),
            le(b.seq as nat, 8),
            le(b.timestamp_ns as nat, 8) + (words(b.axes@)),
        );
        lemma_le_injective(a.seq as nat, b.seq as nat, 8);
        lemma_le_len(a.timestamp_ns as nat, 8);
        lemma_le_len(b.timestamp_ns as nat, 8);
        lemma_parts(
            le(a.timestamp_ns as nat, 8),
            words(a.axes@),
            le(b.timestamp_ns as nat, 8),
            words(b.axes@),
        );
        lemma_le_injective(a.timestamp_ns as nat, b.timestamp_ns as nat, 8);
        lemma_words_len(a.axes@);
        lemma_words_len(b.axes@);
        lemma_words_injective(a.axes@, b.axes@);
        assert(a.axes =~= b.axes) by {
            assert forall|i: int| 0 <= i < 6 implies a.axes[i] == b.axes[i] by {
                assert(a.axes@[i] == b.axes@[i]);
            }
        }
    }

    fn size() -> (r: usize) {
        48
    }

    fn to_wire(&self) -> (r: Vec<u8>) {
        let mut out: Vec<u8> = Vec::with_capacity(48);
        push_le(&mut out, self.magic as u64, 4);
        push_le(&mut out, self.version as u64, 2);
        push_le(&mut out, self.mode as u64, 1);
        push_le(&mut out, self.flags as u64, 1);
        push_le(&mut out, self.seq as u64, 8);
        push_le(&mut out, self.timestamp_ns as u64, 8);
        push_words(&mut out, self.axes.as_slice());
        assert(out@ =~= self.wire());
        out
    }

    fn from_wire(b: &[u8]) -> (r: Self) {
        let magic: u32 = read_u32(b, 0);
        let version: u16 = read_u16(b, 4);
        let mode: u8 = read_u8(b, 6);
        let flags: u8 = read_u8(b, 7);
        let seq: u64 = read_u64(b, 8);
        let timestamp_ns: u64 = read_u64(b, 16);
        let axes: [u32; 6] = [
            read_u32(b, 24),
            read_u32(b, 28),
            read_u32(b, 32),
            read_u32(b, 36),
            read_u32(b, 40),
            read_u32(b, 44),
        ];
        let r: ControlCommand = ControlCommand { magic, version, mode, flags, seq, timestamp_ns, axes };
        proof {
            lemma_words_of(b@, 24, axes@);
            assert(r.wire() =~= b@);
        }
        r
    }
}

/// 6-axis inertial sample: 48 bytes dense, no padding.
#[derive(Debug, Clone, Copy, PartialEq, Eq)]
pub struct ImuSample {
    /// [`ImuSample::MAGIC`].
    pub magic: u32,
    /// Revision.
    pub version: u16,
    /// Reserved.
    pub reserved: u16,
    /// Monotonic sequence.
    pub seq: u64,
    /// UNIX ns stamp.
    pub timestamp_ns: u64,
    /// Gyro rad/s (x,y,z), as bit patterns of single-precision numbers.
    pub gyro_rps: [u32; 3],
    /// Accel g (x,y,z), as bit patterns of single-precision numbers.
    pub accel_g: [u32; 3],
}

impl PlainBytes for ImuSample {
    open spec fn wire(&self) -> Seq<u8> {
        le(self.magic as nat, 4) + (le(self.version as nat, 2) + (le(self.reserved as nat, 2) + (le(self.seq as nat, 8) + (le(self.timestamp_ns as nat, 8) + (words(self.gyro_rps@) + (words(self.accel_g@)))))))
    }

    open spec fn wire_len() -> nat {
        48
    }

    proof fn lemma_wire_len(&self) {
        lemma_le_len(self.magic as nat, 4);
        lemma_le_len(self.version as nat, 2);
        lemma_le_len(self.reserved as nat, 2);
        lemma_le_len(self.seq as nat, 8);
        lemma_le_len(self.timestamp_ns as nat, 8);
        lemma_words_len(self.gyro_rps@);
        lemma_words_len(self.accel_g@);
    }

    proof fn lemma_wire_injective(a: &Self, b: &Self) {
        lemma_le_ranges();
        lemma_le_len(a.magic as nat, 4);
        lemma_le_len(b.magic as nat, 4);
        lemma_parts(
            le(a.magic as nat, 4),
            le(a.version as nat, 2) + (le(a.reserved as nat, 2) + (le(a.seq as nat, 8) + (le(a.timestamp_ns as nat, 8) + (words(a.gyro_rps@) + (words(a.accel_g@)))))),
            le(b.magic as nat, 4),
            le(b.version as nat, 2) + (le(b.reserved as nat, 2) + (le(b.seq as nat, 8) + (le(b.timestamp_ns as nat, 8) + (words(b.gyro_rps@) + (words(b.accel_g@)))))),
        );
        lemma_le_injective(a.magic as nat, b.magic as nat, 4);
        lemma_le_len(a.version as nat, 2);
        lemma_le_len(b.version as nat, 2);
        lemma_parts(
            le(a.version as nat, 2),
            le(a.reserved as nat, 2) + (le(a.seq as nat, 8) + (le(a.timestamp_ns as nat, 8) + (words(a.gyro_rps@) + (words(a.accel_g@))))),
            le(b.version as nat, 2),
            le(b.reserved as nat, 2) + (le(b.seq as nat, 8) + (le(b.timestamp_ns as nat, 8) + (words(b.gyro_rps@) + (words(b.accel_g@))))),
        );
        lemma_le_injective(a.version as nat, b.version as nat, 2);
        lemma_le_len(a.reserved as nat, 2);
        lemma_le_len(b.reserved as nat, 2);
        lemma_parts(
            le(a.reserved as nat, 2),
            le(a.seq as nat, 8) + (le(a.timestamp_ns as nat, 8) + (words(a.gyro_rps@) + (words(a.accel_g@)))),
            le(b.reserved as nat, 2),
            le(b.seq as nat, 8) + (le(b.timestamp_ns as nat, 8) + (words(b.gyro_rps@) + (words(b.accel_g@)))),
        );
        lemma_le_injective(a.reserved as nat, b.reserved as nat, 2);
        lemma_le_len(a.seq as nat, 8);
        lemma_le_len(b.seq as nat, 8);
        lemma_parts(
            le(a.seq as nat, 8),
            le(a.timestamp_ns as nat, 8) + (words(a.gyro_rps@) + (words(a.accel_g@))),
            le(b.seq as nat, 8),
            le(b.timestamp_ns as nat, 8) + (words(b.gyro_rps@) + (words(b.accel_g@))),
        );
        lemma_le_injective(a.seq as nat, b.seq as nat, 8);
        lemma_le_len(a.timestamp_ns as nat, 8);
        lemma_le_len(b.timestamp_ns as nat, 8);
        lemma_parts(
            le(a.timestamp_ns as nat, 8),
            words(a.gyro_rps@) + (words(a.accel_g@)),
            le(b.timestamp_ns as nat, 8),
            words(b.gyro_rps@) + (words(b.accel_g@)),
        );
        lemma_le_injective(a.timestamp_ns as nat, b.timestamp_ns as nat, 8);
        lemma_words_len(a.gyro_rps@);
        lemma_words_len(b.gyro_rps@);
        lemma_parts(
            words(a.gyro_rps@),
            words(a.accel_g@),
            words(b.gyro_rps@),
            words(b.accel_g@),
        );
        lemma_words_injective(a.gyro_rps@, b.gyro_rps@);
        assert(a.gyro_rps =~= b.gyro_rps) by {
            assert forall|i: int| 0 <= i < 3 implies a.gyro_rps[i] == b.gyro_rps[i] by {
                assert(a.gyro_rps@[i] == b.gyro_rps@[i]);
            }
        }
        lemma_words_len(a.accel_g@);
        lemma_words_len(b.accel_g@);
        lemma_words_injective(a.accel_g@, b.accel_g@);
        assert(a.accel_g =~= b.accel_g) by {
            assert forall|i: int| 0 <= i < 3 implies a.accel_g[i] == b.accel_g[i] by {
                assert(a.accel_g@[i] == b.accel_g@[i]);
            }
        }
    }

    fn size() -> (r: usize) {
        48
    }

    fn to_wire(&self) -> (r: Vec<u8>) {
        let mut out: Vec<u8> = Vec::with_capacity(48);
        push_le(&mut out, self.magic as u64, 4);
        push_le(&mut out, self.version as u64, 2);
        push_le(&mut out, self.reserved as u64, 2);
        push_le(&mut out, self.seq as u64, 8);
        push_le(&mut out, self.timestamp_ns as u64, 8);
        push_words(&mut out, self.gyro_rps.as_slice());
        push_words(&mut out, self.accel_g.as_slice());
        assert(out@ =~= self.wire());
        out
    }

    fn from_wire(b: &[u8]) -> (r: Self) {
        let magic: u32 = read_u32(b, 0);
        let version: u16 = read_u16(b, 4);
        let reserved: u16 = read_u16(b, 6);
        let seq: u64 = read_u64(b, 8);
        let timestamp_ns: u64 = read_u64(b, 16);
        let gyro_rps: [u32; 3] = [
            read_u32(b, 24),
            read_u32(b, 28),
            read_u32(b, 32),
        ];
        let accel_g: [u32; 3] = [
            read_u32(b, 36),
            read_u32(b, 40),
            read_u32(b, 44),
        ];
        let r: ImuSample = ImuSample { magic, version, reserved, seq, timestamp_ns, gyro_rps, accel_g };
        proof {
            lemma_words_of(b@, 24, gyro_rps@);
            lemma_words_of(b@, 36, accel_g@);
            assert(r.wire() =~= b@);
        }
        r
    }
}

/// GNSS fix: 64 bytes dense, no padding.
#[derive(Debug, Clone, Copy, PartialEq, Eq)]
pub struct GpsSample {
    /// [`GpsSample::MAGIC`].
    pub magic: u32,
    /// Revision.
    pub version: u16,
    /// Reserved.
    pub reserved: u16,
    /// Monotonic sequence.
    pub seq: u64,
    /// UNIX ns stamp.
    pub timestamp_ns: u64,
    /// Degrees north, as the bit pattern of a double.
    pub lat_deg: u64,
    /// Degrees east, as the bit pattern of a double.
    pub lon_deg: u64,
    /// Meters above MSL, as the bit pattern of a double.
    pub alt_m: u64,
    /// Meters/second ground speed, as the bit pattern of a single-precision number.
    pub speed_mps: u32,
    /// Degrees true north, as the bit pattern of a single-precision number.
    pub course_deg: u32,
    /// Satellites used in fix.
    pub sats: u32,
    /// Fix-quality flag (1 = good).
    pub fix_ok: u32,
}

impl PlainBytes for GpsSample {
    open spec fn wire(&self) -> Seq<u8> {
        le(self.magic as nat, 4) + (le(self.version as nat, 2) + (le(self.reserved as nat, 2) + (le(self.seq as nat, 8) + (le(self.timestamp_ns as nat, 8) + (le(self.lat_deg as nat, 8) + (le(self.lon_deg as nat, 8) + (le(self.alt_m as nat, 8) + (le(self.speed_mps as nat, 4) + (le(self.course_deg as nat, 4) + (le(self.sats as nat, 4) + (le(self.fix_ok as nat, 4))))))))))))
    }

    open spec fn wire_len() -> nat {
        64
    }

    proof fn lemma_wire_len(&self) {
        lemma_le_len(self.magic as nat, 4);
        lemma_le_len(self.version as nat, 2);
        lemma_le_len(self.reserved as nat, 2);
        lemma_le_len(self.seq as nat, 8);
        lemma_le_len(self.timestamp_ns as nat, 8);
        lemma_le_len(self.lat_deg as nat, 8);
        lemma_le_len(self.lon_deg as nat, 8);
        lemma_le_len(self.alt_m as nat, 8);
        lemma_le_len(self.speed_mps as nat, 4);
        lemma_le_len(self.course_deg as nat, 4);
        lemma_le_len(self.sats as nat, 4);
        lemma_le_len(self.fix_ok as nat, 4);
    }

    proof fn lemma_wire_injective(a: &Self, b: &Self) {
        lemma_le_ranges();
        lemma_le_len(a.magic as nat, 4);
        lemma_le_len(b.magic as nat, 4);
        lemma_parts(
            le(a.magic as nat, 4),
            le(a.version as nat, 2) + (le(a.reserved as nat, 2) + (le(a.seq as nat, 8) + (le(a.timestamp_ns as nat, 8) + (le(a.lat_deg as nat, 8) + (le(a.lon_deg as nat, 8) + (le(a.alt_m as nat, 8) + (le(a.speed_mps as nat, 4) + (le(a.course_deg as nat, 4) + (le(a.sats as nat, 4) + (le(a.fix_ok as nat, 4))))))))))),
            le(b.magic as nat, 4),
            le(b.version as nat, 2) + (le(b.reserved as nat, 2) + (le(b.seq as nat, 8) + (le(b.timestamp_ns as nat, 8) + (le(b.lat_deg as nat, 8) + (le(b.lon_deg as nat, 8) + (le(b.alt_m as nat, 8) + (le(b.speed_mps as nat, 4) + (le(b.course_deg as nat, 4) + (le(b.sats as nat, 4) + (le(b.fix_ok as nat, 4))))))))))),
        );
        lemma_le_injective(a.magic as nat, b.magic as nat, 4);
        lemma_le_len(a.version as nat, 2);
        lemma_le_len(b.version as nat, 2);
        lemma_parts(
            le(a.version as nat, 2),
            le(a.reserved as nat, 2) + (le(a.seq as nat, 8) + (le(a.timestamp_ns as nat, 8) + (le(a.lat_deg as nat, 8) + (le(a.lon_deg as nat, 8) + (le(a.alt_m as nat, 8) + (le(a.speed_mps as nat, 4) + (le(a.course_deg as nat, 4) + (le(a.sats as nat, 4) + (le(a.fix_ok as nat, 4)))))))))),
            le(b.version as nat, 2),
            le(b.reserved as nat, 2) + (le(b.seq as nat, 8) + (le(b.timestamp_ns as nat, 8) + (le(b.lat_deg as nat, 8) + (le(b.lon_deg as nat, 8) + (le(b.alt_m as nat, 8) + (le(b.speed_mps as nat, 4) + (le(b.course_deg as nat, 4) + (le(b.sats as nat, 4) + (le(b.fix_ok as nat, 4)))))))))),
        );
        lemma_le_injective(a.version as nat, b.version as nat, 2);
        lemma_le_len(a.reserved as nat, 2);
        lemma_le_len(b.reserved as nat, 2);
        lemma_parts(
            le(a.reserved as nat, 2),
            le(a.seq as nat, 8) + (le(a.timestamp_ns as nat, 8) + (le(a.lat_deg as nat, 8) + (le(a.lon_deg as nat, 8) + (le(a.alt_m as nat, 8) + (le(a.speed_mps as nat, 4) + (le(a.course_deg as nat, 4) + (le(a.sats as nat, 4) + (le(a.fix_ok as nat, 4))))))))),
            le(b.reserved as nat, 2),
            le(b.seq as nat, 8) + (le(b.timestamp_ns as nat, 8) + (le(b.lat_deg as nat, 8) + (le(b.lon_deg as nat, 8) + (le(b.alt_m as nat, 8) + (le(b.speed_mps as nat, 4) + (le(b.course_deg as nat, 4) + (le(b.sats as nat, 4) + (le(b.fix_ok as nat, 4))))))))),
        );
        lemma_le_injective(a.reserved as nat, b.reserved as nat, 2);
        lemma_le_len(a.seq as nat, 8);
        lemma_le_len(b.seq as nat, 8);
        lemma_parts(
            le(a.seq as nat, 8),
            le(a.timestamp_ns as nat, 8) + (le(a.lat_deg as nat, 8) + (le(a.lon_deg as nat, 8) + (le(a.alt_m as nat, 8) + (le(a.speed_mps as nat, 4) + (le(a.course_deg as nat, 4) + (le(a.sats as nat, 4) + (le(a.fix_ok as nat, 4)))))))),
            le(b.seq as nat, 8),
            le(b.timestamp_ns as nat, 8) + (le(b.lat_deg as nat, 8) + (le(b.lon_deg as nat, 8) + (le(b.alt_m as nat, 8) + (le(b.speed_mps as nat, 4) + (le(b.course_deg as nat, 4) + (le(b.sats as nat, 4) + (le(b.fix_ok as nat, 4)))))))),
        );
        lemma_le_injective(a.seq as nat, b.seq as nat, 8);
        lemma_le_len(a.timestamp_ns as nat, 8);
        lemma_le_len(b.timestamp_ns as nat, 8);
        lemma_parts(
            le(a.timestamp_ns as nat, 8),
            le(a.lat_deg as nat, 8) + (le(a.lon_deg as nat, 8) + (le(a.alt_m as nat, 8) + (le(a.speed_mps as nat, 4) + (le(a.course_deg as nat, 4) + (le(a.sats as nat, 4) + (le(a.fix_ok as nat, 4))))))),
            le(b.timestamp_ns as nat, 8),
            le(b.lat_deg as nat, 8) + (le(b.lon_deg as nat, 8) + (le(b.alt_m as nat, 8) + (le(b.speed_mps as nat, 4) + (le(b.course_deg as nat, 4) + (le(b.sats as nat, 4) + (le(b.fix_ok as nat, 4))))))),
        );
        lemma_le_injective(a.timestamp_ns as nat, b.timestamp_ns as nat, 8);
        lemma_le_len(a.lat_deg as nat, 8);
        lemma_le_len(b.lat_deg as nat, 8);
        lemma_parts(
            le(a.lat_deg as nat, 8),
            le(a.lon_deg as nat, 8) + (le(a.alt_m as nat, 8) + (le(a.speed_mps as nat, 4) + (le(a.course_deg as nat, 4) + (le(a.sats as nat, 4) + (le(a.fix_ok as nat, 4)))))),
            le(b.lat_deg as nat, 8),
            le(b.lon_deg as nat, 8) + (le(b.alt_m as nat, 8) + (le(b.speed_mps as nat, 4) + (le(b.course_deg as nat, 4) + (le(b.sats as nat, 4) + (le(b.fix_ok as nat, 4)))))),
        );
        lemma_le_injective(a.lat_deg as nat, b.lat_deg as nat, 8);
        lemma_le_len(a.lon_deg as nat, 8);
        lemma_le_len(b.lon_deg as nat, 8);
        lemma_parts(
            le(a.lon_deg as nat, 8),
            le(a.alt_m as nat, 8) + (le(a.speed_mps as nat, 4) + (le(a.course_deg as nat, 4) + (le(a.sats as nat, 4) + (le(a.fix_ok as nat, 4))))),
            le(b.lon_deg as nat, 8),
            le(b.alt_m as nat, 8) + (le(b.speed_mps as nat, 4) + (le(b.course_deg as nat, 4) + (le(b.sats as nat, 4) + (le(b.fix_ok as nat, 4))))),
        );
        lemma_le_injective(a.lon_deg as nat, b.lon_deg as nat, 8);
        lemma_le_len(a.alt_m as nat, 8);
        lemma_le_len(b.alt_m as nat, 8);
        lemma_parts(
            le(a.alt_m as nat, 8),
            le(a.speed_mps as nat, 4) + (le(a.course_deg as nat, 4) + (le(a.sats as nat, 4) + (le(a.fix_ok as nat, 4)))),
            le(b.alt_m as nat, 8),
            le(b.speed_mps as nat, 4) + (le(b.course_deg as nat, 4) + (le(b.sats as nat, 4) + (le(b.fix_ok as nat, 4)))),
        );
        lemma_le_injective(a.alt_m as nat, b.alt_m as nat, 8);
        lemma_le_len(a.speed_mps as nat, 4);
        lemma_le_len(b.speed_mps as nat, 4);
        lemma_parts(
            le(a.speed_mps as nat, 4),
            le(a.course_deg as nat, 4) + (le(a.sats as nat, 4) + (le(a.fix_ok as nat, 4))),
            le(b.speed_mps as nat, 4),
            le(b.course_deg as nat, 4) + (le(b.sats as nat, 4) + (le(b.fix_ok as nat, 4))),
        );
        lemma_le_injective(a.speed_mps as nat, b.speed_mps as nat, 4);
        lemma_le_len(a.course_deg as nat, 4);
        lemma_le_len(b.course_deg as nat, 4);
        lemma_parts(
            le(a.course_deg as nat, 4),
            le(a.sats as nat, 4) + (le(a.fix_ok as nat, 4)),
            le(b.course_deg as nat, 4),
            le(b.sats as nat, 4) + (le(b.fix_ok as nat, 4)),
        );
        lemma_le_injective(a.course_deg as nat, b.course_deg as nat, 4);
        lemma_le_len(a.sats as nat, 4);
        lemma_le_len(b.sats as nat, 4);
        lemma_parts(
            le(a.sats as nat, 4),
            le(a.fix_ok as nat, 4),
            le(b.sats as nat, 4),
            le(b.fix_ok as nat, 4),
        );
        lemma_le_injective(a.sats as nat, b.sats as nat, 4);
        lemma_le_len(a.fix_ok as nat, 4);
        lemma_le_len(b.fix_ok as nat, 4);
        lemma_le_injective(a.fix_ok as nat, b.fix_ok as nat, 4);
    }

    fn size() -> (r: usize) {
        64
    }

    fn to_wire(&self) -> (r: Vec<u8>) {
        let mut out: Vec<u8> = Vec::with_capacity(64);
        push_le(&mut out, self.magic as u64, 4);
        push_le(&mut out, self.version as u64, 2);
        push_le(&mut out, self.reserved as u64, 2);
        push_le(&mut out, self.seq as u64, 8);
        push_le(&mut out, self.timestamp_ns as u64, 8);
        push_le(&mut out, self.lat_deg as u64, 8);
        push_le(&mut out, self.lon_deg as u64, 8);
        push_le(&mut out, self.alt_m as u64, 8);
        push_le(&mut out, self.speed_mps as u64, 4);
        push_le(&mut out, self.course_deg as u64, 4);
        push_le(&mut out, self.sats as u64, 4);
        push_le(&mut out, self.fix_ok as u64, 4);
        assert(out@ =~= self.wire());
        out
    }

    fn from_wire(b: &[u8]) -> (r: Self) {
        let magic: u32 = read_u32(b, 0);
        let version: u16 = read_u16(b, 4);
        let reserved: u16 = read_u16(b, 6);
        let seq: u64 = read_u64(b, 8);
        let timestamp_ns: u64 = read_u64(b, 16);
        let lat_deg: u64 = read_u64(b, 24);
        let lon_deg: u64 = read_u64(b, 32);
        let alt_m: u64 = read_u64(b, 40);
        let speed_mps: u32 = read_u32(b, 48);
        let course_deg: u32 = read_u32(b, 52);
        let sats: u32 = read_u32(b, 56);
        let fix_ok: u32 = read_u32(b, 60);
        let r: GpsSample = GpsSample { magic, version, reserved, seq, timestamp_ns, lat_deg, lon_deg, alt_m, speed_mps, course_deg, sats, fix_ok };
        proof {
            assert(r.wire() =~= b@);
        }
        r
    }
}

/// Generic N-value telemetry frame: 56 bytes dense, no padding.
#[derive(Debug, Clone, Copy, PartialEq, Eq)]
pub struct TelemetryPacket {
    /// [`TelemetryPacket::MAGIC`].
    pub magic: u32,
    /// Number of the [`TelemetryKind`].
    pub kind: u16,
    /// Reserved.
    pub reserved: u16,
    /// Monotonic sequence.
    pub seq: u64,
    /// UNIX ns stamp.
    pub timestamp_ns: u64,
    /// Payload values, as bit patterns of single-precision numbers; unused slots are zeros.
    pub values: [u32; 8],
}

impl PlainBytes for TelemetryPacket {
    open spec fn wire(&self) -> Seq<u8> {
        le(self.magic as nat, 4) + (le(self.kind as nat, 2) + (le(self.reserved as nat, 2) + (le(self.seq as nat, 8) + (le(self.timestamp_ns as nat, 8) + (words(self.values@))))))
    }

    open spec fn wire_len() -> nat {
        56
    }

    proof fn lemma_wire_len(&self) {
        lemma_le_len(self.magic as nat, 4);
        lemma_le_len(self.kind as nat, 2);
        lemma_le_len(self.reserved as nat, 2);
        lemma_le_len(self.seq as nat, 8);
        lemma_le_len(self.timestamp_ns as nat, 8);
        lemma_words_len(self.values@);
    }

    proof fn lemma_wire_injective(a: &Self, b: &Self) {
        lemma_le_ranges();
        lemma_le_len(a.magic as nat, 4);
        lemma_le_len(b.magic as nat, 4);
        lemma_parts(
            le(a.magic as nat, 4),
            le(a.kind as nat, 2) + (le(a.reserved as nat, 2) + (le(a.seq as nat, 8) + (le(a.timestamp_ns as nat, 8) + (words(a.values@))))),
            le(b.magic as nat, 4),
            le(b.kind as nat, 2) + (le(b.reserved as nat, 2) + (le(b.seq as nat, 8) + (le(b.timestamp_ns as nat, 8) + (words(b.values@))))),
        );
        lemma_le_injective(a.magic as nat, b.magic as nat, 4);
        lemma_le_len(a.kind as nat, 2);
        lemma_le_len(b.kind as nat, 2);
        lemma_parts(
            le(a.kind as nat, 2),
            le(a.reserved as nat, 2) + (le(a.seq as nat, 8) + (le(a.timestamp_ns as nat, 8) + (words(a.values@)))),
            le(b.kind as nat, 2),
            le(b.reserved as nat, 2) + (le(b.seq as nat, 8) + (le(b.timestamp_ns as nat, 8) + (words(b.values@)))),
        );
        lemma_le_injective(a.kind as nat, b.kind as nat, 2);
        lemma_le_len(a.reserved as nat, 2);
        lemma_le_len(b.reserved as nat, 2);
        lemma_parts(
            le(a.reserved as nat, 2),
            le(a.seq as nat, 8) + (le(a.timestamp_ns as nat, 8) + (words(a.values@))),
            le(b.reserved as nat, 2),
            le(b.seq as nat, 8) + (le(b.timestamp_ns as nat, 8) + (words(b.values@))),
        );
        lemma_le_injective(a.reserved as nat, b.reserved as nat, 2);
        lemma_le_len(a.seq as nat, 8);
        lemma_le_len(b.seq as nat, 8);
        lemma_parts(
            le(a.seq as nat, 8),
            le(a.timestamp_ns as nat, 8) + (words(a.values@)),
            le(b.seq as nat, 8),
            le(b.timestamp_ns as nat, 8) + (words(b.values@)),
        );
        lemma_le_injective(a.seq as nat, b.seq as nat, 8);
        lemma_le_len(a.timestamp_ns as nat, 8);
        lemma_le_len(b.timestamp_ns as nat, 8);
        lemma_parts(
            le(a.timestamp_ns as nat, 8),
            words(a.values@),
            le(b.timestamp_ns as nat, 8),
            words(b.values@),
        );
        lemma_le_injective(a.timestamp_ns as nat, b.timestamp_ns as nat, 8);
        lemma_words_len(a.values@);
        lemma_words_len(b.values@);
        lemma_words_injective(a.values@, b.values@);
        assert(a.values =~= b.values) by {
            assert forall|i: int| 0 <= i < 8 implies a.values[i] == b.values[i] by {
                assert(a.values@[i] == b.values@[i]);
            }
        }
    }

    fn size() -> (r: usize) {
        56
    }

    fn to_wire(&self) -> (r: Vec<u8>) {
        let mut out: Vec<u8> = Vec::with_capacity(56);
        push_le(&mut out, self.magic as u64, 4);
        push_le(&mut out, self.kind as u64, 2);
        push_le(&mut out, self.reserved as u64, 2);
        push_le(&mut out, self.seq as u64, 8);
        push_le(&mut out, self.timestamp_ns as u64, 8);
        push_words(&mut out, self.values.as_slice());
        assert(out@ =~= self.wire());
        out
    }

    fn from_wire(b: &[u8]) -> (r: Self) {
        let magic: u32 = read_u32(b, 0);
        let kind: u16 = read_u16(b, 4);
        let reserved: u16 = read_u16(b, 6);
        let seq: u64 = read_u64(b, 8);
        let timestamp_ns: u64 = read_u64(b, 16);
        let values: [u32; 8] = [
            read_u32(b, 24),
            read_u32(b, 28),
            read_u32(b, 32),
            read_u32(b, 36),
            read_u32(b, 40),
            read_u32(b, 44),
            read_u32(b, 48),
            read_u32(b, 52),
        ];
        let r: TelemetryPacket = TelemetryPacket { magic, kind, reserved, seq, timestamp_ns, values };
        proof {
            lemma_words_of(b@, 24, values@);
            assert(r.wire() =~= b@);
        }
        r
    }
}

/// Words read one after the other have the bytes they were read from.
proof fn lemma_words_of(b: Seq<u8>, at: int, v: Seq<u32>)
    requires
        0 <= at,
        at + 4 * v.len() <= b.len(),
        forall|j: int|
            0 <= j < v.len() ==> le(#[trigger] v[j] as nat, 4) == b.subrange(
                at + 4 * j,
                at + 4 * j + 4,
            ),
    ensures
        words(v) == b.subrange(at, at + 4 * v.len()),
    decreases v.len(),
{
    if v.len() > 0 {
        let rest = v.drop_first();
        assert forall|j: int| 0 <= j < rest.len() implies le(#[trigger] rest[j] as nat, 4)
            == b.subrange(at + 4 + 4 * j, at + 4 + 4 * j + 4) by {
            assert(rest[j] == v[j + 1]);
        }
        lemma_words_of(b, at + 4, rest);
        assert(le(v[0] as nat, 4) == b.subrange(at, at + 4));
        assert(b.subrange(at, at + 4 * v.len()) =~= b.subrange(at, at + 4) + b.subrange(
            at + 4,
            at + 4 + 4 * rest.len(),
        ));
    } else {
        assert(words(v) =~= b.subrange(at, at));
    }
}

impl ControlCommand {
    /// A command into `mode` with all axes at rest.
    pub fn zeroed(mode: Mode) -> (c: ControlCommand)
        ensures
            c.magic == FRAME_MAGIC,
            c.version == PROTOCOL_VERSION,
            c.mode == mode_number(mode),
            c.flags == 0,
            c.seq == 0,
            c.timestamp_ns == 0,
            c.axes@ == seq![0u32, 0u32, 0u32, 0u32, 0u32, 0u32],
    {
        let c: ControlCommand = ControlCommand {
            magic: FRAME_MAGIC,
            version: PROTOCOL_VERSION,
            mode: mode.as_u8(),
            flags: 0,
            seq: 0,
            timestamp_ns: 0,
            axes: [0, 0, 0, 0, 0, 0],
        };
        assert(c.axes@ =~= seq![0u32, 0u32, 0u32, 0u32, 0u32, 0u32]);
        c
    }

    /// The commanded mode, if its number names one.
    pub fn mode(&self) -> (r: Option<Mode>)
        ensures
            r == mode_of(self.mode),
    {
        Mode::from_u8(self.mode)
    }

    /// Whether autonomy issued the command.
    pub open spec fn from_autonomy(&self) -> bool {
        self.flags & FLAG_AI_ORIGIN != 0
    }

    /// Whether autonomy issued the command.
    pub fn is_ai_origin(&self) -> (r: bool)
        ensures
            r == self.from_autonomy(),
    {
        self.flags & FLAG_AI_ORIGIN != 0
    }
}

/// What kind of sample a [`TelemetryPacket`] carries.
#[derive(Debug, Clone, Copy, PartialEq, Eq, Structural)]
pub enum TelemetryKind {
    /// Generic float vector.
    Generic,
    /// Battery/state-of-charge values.
    Battery,
    /// Pose estimate.
    Pose,
    /// CPU/encoder temperatures.
    Temperature,
}

/// The number of a telemetry kind.
pub open spec fn kind_number(k: TelemetryKind) -> u16 {
    match k {
        TelemetryKind::Generic => 0,
        TelemetryKind::Battery => 1,
        TelemetryKind::Pose => 2,
        TelemetryKind::Temperature => 3,
    }
}

/// The telemetry kind of a number.
pub open spec fn kind_of(v: u16) -> Option<TelemetryKind> {
    if v == 0 {
        Some(TelemetryKind::Generic)
    } else if v == 1 {
        Some(TelemetryKind::Battery)
    } else if v == 2 {
        Some(TelemetryKind::Pose)
    } else if v == 3 {
        Some(TelemetryKind::Temperature)
    } else {
        None
    }
}

/// The name of a telemetry kind.
pub open spec fn kind_name(k: TelemetryKind) -> Seq<char> {
    match k {
        TelemetryKind::Generic => "Generic"@,
        TelemetryKind::Battery => "Battery"@,
        TelemetryKind::Pose => "Pose"@,
        TelemetryKind::Temperature => "Temperature"@,
    }
}

impl TelemetryKind {
    /// The number of the kind.
    pub fn as_u16(self) -> (r: u16)
        ensures
            r == kind_number(self),
    {
        match self {
            TelemetryKind::Generic => 0,
            TelemetryKind::Battery => 1,
            TelemetryKind::Pose => 2,
            TelemetryKind::Temperature => 3,
        }
    }

    /// Inverse of [`as_u16`](Self::as_u16).
    pub fn from_u16(v: u16) -> (r: Option<TelemetryKind>)
        ensures
            r == kind_of(v),
    {
        match v {
            0 => Some(TelemetryKind::Generic),
            1 => Some(TelemetryKind::Battery),
            2 => Some(TelemetryKind::Pose),
            3 => Some(TelemetryKind::Temperature),
            _ => None,
        }
    }

    /// The name of the kind.
    pub fn name(self) -> (r: &'static str)
        ensures
            r@ == kind_name(self),
    {
        match self {
            TelemetryKind::Generic => "Generic",
            TelemetryKind::Battery => "Battery",
            TelemetryKind::Pose => "Pose",
            TelemetryKind::Temperature => "Temperature",
        }
    }
}

/// The number of a telemetry kind leads back to the kind.
pub proof fn law_kind_numbers(k: TelemetryKind, v: u16)
    ensures
        kind_of(kind_number(k)) == Some(k),
        kind_of(v) matches Some(n) ==> kind_number(n) == v,
        kind_of(v) is None <==> v > 3,
{
}

impl ImuSample {
    /// Magic: telemetry base | 1.
    pub const MAGIC: u32 = 0x544C_4D01;

    /// Fresh zero sample stamped with `seq`/`ts`.
    pub fn zeroed(seq: u64, timestamp_ns: u64) -> (s: ImuSample)
        ensures
            s.magic == ImuSample::MAGIC,
            s.version == 1,
            s.reserved == 0,
            s.seq == seq,
            s.timestamp_ns == timestamp_ns,
            s.gyro_rps@ == seq![0u32, 0u32, 0u32],
            s.accel_g@ == seq![0u32, 0u32, 0u32],
    {
        let s: ImuSample = ImuSample {
            magic: ImuSample::MAGIC,
            version: 1,
            reserved: 0,
            seq,
            timestamp_ns,
            gyro_rps: [0, 0, 0],
            accel_g: [0, 0, 0],
        };
        assert(s.gyro_rps@ =~= seq![0u32, 0u32, 0u32]);
        assert(s.accel_g@ =~= seq![0u32, 0u32, 0u32]);
        s
    }
}

impl GpsSample {
    /// Magic: telemetry base | 2.
    pub const MAGIC: u32 = 0x544C_4D02;

    /// Fresh zero fix stamped with `seq`/`ts`.
    pub fn zeroed(seq: u64, timestamp_ns: u64) -> (s: GpsSample)
        ensures
            s == (GpsSample {
                magic: GpsSample::MAGIC,
                version: 1,
                reserved: 0,
                seq,
                timestamp_ns,
                lat_deg: 0,
                lon_deg: 0,
                alt_m: 0,
                speed_mps: 0,
                course_deg: 0,
                sats: 0,
                fix_ok: 0,
            }),
    {
        GpsSample {
            magic: GpsSample::MAGIC,
            version: 1,
            reserved: 0,
            seq,
            timestamp_ns,
            lat_deg: 0,
            lon_deg: 0,
            alt_m: 0,
            speed_mps: 0,
            course_deg: 0,
            sats: 0,
            fix_ok: 0,
        }
    }
}

impl TelemetryPacket {
    /// Magic: telemetry base | 0.
    pub const MAGIC: u32 = 0x544C_4D00;

    /// Fresh empty packet of `kind`.
    pub fn zeroed(kind: TelemetryKind, seq: u64, timestamp_ns: u64) -> (p: TelemetryPacket)
        ensures
            p.magic == TelemetryPacket::MAGIC,
            p.kind == kind_number(kind),
            p.reserved == 0,
            p.seq == seq,
            p.timestamp_ns == timestamp_ns,
            p.values@ == Seq::new(8, |i: int| 0u32),
    {
        let p: TelemetryPacket = TelemetryPacket {
            magic: TelemetryPacket::MAGIC,
            kind: kind.as_u16(),
            reserved: 0,
            seq,
            timestamp_ns,
            values: [0, 0, 0, 0, 0, 0, 0, 0],
        };
        assert(p.values@ =~= Seq::new(8, |i: int| 0u32));
        p
    }
}

} // verus!
