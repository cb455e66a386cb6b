//! Archives of wire structs: written straight into a reused, aligned buffer, and
//! read from it again.
//!
//! Archiving itself is the work of the `rkyv` crate, with numbers stored least
//! significant byte first.
use rkyv::api::high::to_bytes_in;
use rkyv::primitive::{ArchivedU16, ArchivedU32, ArchivedU64};
use rkyv::rancor::BoxedError;
use rkyv::tuple::{ArchivedTuple12, ArchivedTuple6, ArchivedTuple7};
use rkyv::util::AlignedVec;
use vstd::prelude::*;
use crate::runtime::wire::{
    decoded, law_decoded_reads_back, lemma_decoded_is, ControlCommand, GpsSample, ImuSample,
    PlainBytes, TelemetryPacket, WIRE_ALIGN,
};

verus! {

/// The aligned byte vector of `rkyv`.
#[verifier::external_type_specification]
#[verifier::external_body]
pub struct ExAlignedVec<const ALIGNMENT: usize>(rkyv::util::AlignedVec<ALIGNMENT>);

/// The boxed error of `rancor`, which `rkyv` reports.
#[verifier::external_type_specification]
#[verifier::external_body]
pub struct ExBoxedError(rkyv::rancor::BoxedError);

/// Pre-aligned growable wire buffer type (reuses its allocation).
pub type AlignedBuf = AlignedVec<WIRE_ALIGN>;

/// The bytes that a buffer holds.
pub uninterp spec fn held(buf: AlignedVec<64>) -> Seq<u8>;

/// `AlignedVec::clear`: afterwards the vector holds nothing.
#[verifier::external_body]
fn clear(buf: &mut AlignedVec<64>)
    ensures
        held(*final(buf)) == Seq::<u8>::empty(),
{
    buf.clear()
}

/// `AlignedVec::len`: how many bytes the vector holds.
#[verifier::external_body]
fn len(buf: &AlignedVec<64>) -> (n: usize)
    ensures
        n == held(*buf).len(),
{
    buf.len()
}

/// `rkyv::api::high::to_bytes_in` on the fields of a command as a tuple. Into an
/// empty buffer it writes the archived tuple and nothing else: the fields one
/// after the other, which need no padding, each least significant byte first.
/// Numbers take no further memory and a vector takes every write, so that it
/// does not fail.
#[verifier::external_body]
fn write_archive(c: &ControlCommand, buf: &mut AlignedVec<64>) -> (r: Result<(), BoxedError>)
    requires
        held(*old(buf)) == Seq::<u8>::empty(),
    ensures
        r is Ok,
        held(*final(buf)) == c.wire(),
{
    let fields = (c.magic, c.version, c.mode, c.flags, c.seq, c.timestamp_ns, c.axes);
    *buf = to_bytes_in::<_, BoxedError>(&fields, std::mem::take(buf))?;
    Ok(())
}

/// Whether an archive of `len` bytes stands at the end of `n` aligned bytes: there
/// is room for it, and it starts at a multiple of 8.
pub open spec fn archive_fits(n: int, len: int) -> bool {
    n >= len && (n - len) % 8 == 0
}

/// `rkyv::access` for the tuple of the fields of a command. The archive is taken
/// from the end of the bytes; it is refused if there is no room for it, or if it
/// does not start at a multiple of 8. Any bits are a valid number.
#[verifier::external_body]
fn read_archive(buf: &AlignedVec<64>) -> (r: Result<ControlCommand, BoxedError>)
    ensures
        r is Ok <==> archive_fits(held(*buf).len() as int, 48),
        r matches Ok(c) ==> c.wire() == held(*buf).skip(held(*buf).len() - 48),
{
    let a = rkyv::access::<
        ArchivedTuple7<ArchivedU32, ArchivedU16, u8, u8, ArchivedU64, ArchivedU64, [ArchivedU32; 6]>,
        BoxedError,
    >(buf.as_slice())?;
    Ok(ControlCommand {
        magic: a.0.to_native(), version: a.1.to_native(), mode: a.2, flags: a.3,
        seq: a.4.to_native(), timestamp_ns: a.5.to_native(), axes: a.6.map(|w| w.to_native()),
    })
}

/// `rkyv::api::high::to_bytes_in` on the fields of an inertial sample as a tuple. As with a
/// command, into an empty buffer it writes the fields one after the other, which
/// need no padding, each least significant byte first, and does not fail.
#[verifier::external_body]
fn write_imu(s: &ImuSample, buf: &mut AlignedVec<64>) -> (r: Result<(), BoxedError>)
    requires
        held(*old(buf)) == Seq::<u8>::empty(),
    ensures
        r is Ok,
        held(*final(buf)) == s.wire(),
{
    let fields = (
        s.magic, s.version, s.reserved, s.seq, s.timestamp_ns, s.gyro_rps, s.accel_g,
    );
    *buf = to_bytes_in::<_, BoxedError>(&fields, std::mem::take(buf))?;
    Ok(())
}

/// `rkyv::access` for the tuple of the fields of an inertial sample. As with a command, the
/// archive is taken from the end of the bytes, and is refused if there is no room
/// for it or if it does not start at a multiple of 8.
#[verifier::external_body]
fn read_imu(buf: &AlignedVec<64>) -> (r: Result<ImuSample, BoxedError>)
    ensures
        r is Ok <==> archive_fits(held(*buf).len() as int, 48),
        r matches Ok(s) ==> s.wire() == held(*buf).skip(held(*buf).len() - 48),
{
    let a = rkyv::access::<
        ArchivedTuple7<ArchivedU32, ArchivedU16, ArchivedU16, ArchivedU64, ArchivedU64, [ArchivedU32; 3], [ArchivedU32; 3]>,
        BoxedError,
    >(buf.as_slice())?;
    Ok(ImuSample {
        magic: a.0.to_native(), version: a.1.to_native(), reserved: a.2.to_native(),
        seq: a.3.to_native(), timestamp_ns: a.4.to_native(),
        gyro_rps: a.5.map(|w| w.to_native()), accel_g: a.6.map(|w| w.to_native()),
    })
}

/// `rkyv::api::high::to_bytes_in` on the fields of a position as a tuple. As with a
/// command, into an empty buffer it writes the fields one after the other, which
/// need no padding, each least significant byte first, and does not fail.
#[verifier::external_body]
fn write_gps(s: &GpsSample, buf: &mut AlignedVec<64>) -> (r: Result<(), BoxedError>)
    requires
        held(*old(buf)) == Seq::<u8>::empty(),
    ensures
        r is Ok,
        held(*final(buf)) == s.wire(),
{
    let fields = (
        s.magic, s.version, s.reserved, s.seq, s.timestamp_ns, s.lat_deg, s.lon_deg, s.alt_m,
        s.speed_mps, s.course_deg, s.sats, s.fix_ok,
    );
    *buf = to_bytes_in::<_, BoxedError>(&fields, std::mem::take(buf))?;
    Ok(())
}

/// `rkyv::access` for the tuple of the fields of a position. As with a command, the
/// archive is taken from the end of the bytes, and is refused if there is no room
/// for it or if it does not start at a multiple of 8.
#[verifier::external_body]
fn read_gps(buf: &AlignedVec<64>) -> (r: Result<GpsSample, BoxedError>)
    ensures
        r is Ok <==> archive_fits(held(*buf).len() as int, 64),
        r matches Ok(s) ==> s.wire() == held(*buf).skip(held(*buf).len() - 64),
{
    let a = rkyv::access::<
        ArchivedTuple12<
            ArchivedU32, ArchivedU16, ArchivedU16, ArchivedU64, ArchivedU64, ArchivedU64, ArchivedU64, ArchivedU64,
            ArchivedU32, ArchivedU32, ArchivedU32, ArchivedU32,
        >,
        BoxedError,
    >(buf.as_slice())?;
    Ok(GpsSample {
        magic: a.0.to_native(), version: a.1.to_native(), reserved: a.2.to_native(),
        seq: a.3.to_native(), timestamp_ns: a.4.to_native(), lat_deg: a.5.to_native(),
        lon_deg: a.6.to_native(), alt_m: a.7.to_native(), speed_mps: a.8.to_native(),
        course_deg: a.9.to_native(), sats: a.10.to_native(), fix_ok: a.11.to_native(),
    })
}

/// `rkyv::api::high::to_bytes_in` on the fields of a telemetry packet as a tuple. As with a
/// command, into an empty buffer it writes the fields one after the other, which
/// need no padding, each least significant byte first, and does not fail.
#[verifier::external_body]
fn write_telemetry(s: &TelemetryPacket, buf: &mut AlignedVec<64>) -> (r: Result<(), BoxedError>)
    requires
        held(*old(buf)) == Seq::<u8>::empty(),
    ensures
        r is Ok,
        held(*final(buf)) == s.wire(),
{
    let fields = (
        s.magic, s.kind, s.reserved, s.seq, s.timestamp_ns, s.values,
    );
    *buf = to_bytes_in::<_, BoxedError>(&fields, std::mem::take(buf))?;
    Ok(())
}

/// `rkyv::access` for the tuple of the fields of a telemetry packet. As with a command, the
/// archive is taken from the end of the bytes, and is refused if there is no room
/// for it or if it does not start at a multiple of 8.
#[verifier::external_body]
fn read_telemetry(buf: &AlignedVec<64>) -> (r: Result<TelemetryPacket, BoxedError>)
    ensures
        r is Ok <==> archive_fits(held(*buf).len() as int, 56),
        r matches Ok(s) ==> s.wire() == held(*buf).skip(held(*buf).len() - 56),
{
    let a = rkyv::access::<
        ArchivedTuple6<ArchivedU32, ArchivedU16, ArchivedU16, ArchivedU64, ArchivedU64, [ArchivedU32; 8]>,
        BoxedError,
    >(buf.as_slice())?;
    Ok(TelemetryPacket {
        magic: a.0.to_native(), kind: a.1.to_native(), reserved: a.2.to_native(),
        seq: a.3.to_native(), timestamp_ns: a.4.to_native(),
        values: a.5.map(|w| w.to_native()),
    })
}

/// A wire struct that can be archived. Its archive is its wire form.
pub trait Archivable: PlainBytes {
    /// Writes the archive into an empty buffer.
    fn archive_into(&self, buf: &mut AlignedVec<64>) -> (r: Result<(), BoxedError>)
        requires
            held(*old(buf)) == Seq::<u8>::empty(),
        ensures
            r is Ok,
            held(*final(buf)) == self.wire(),
    ;

    /// Reads the archive at the end of a buffer.
    fn from_archive(buf: &AlignedVec<64>) -> (r: Result<Self, BoxedError>)
        ensures
            r is Ok <==> archive_fits(held(*buf).len() as int, Self::wire_len() as int),
            r matches Ok(s) ==> s.wire() == held(*buf).skip(held(*buf).len() - Self::wire_len()),
    ;
}

impl Archivable for ControlCommand {
    fn archive_into(&self, buf: &mut AlignedVec<64>) -> (r: Result<(), BoxedError>) {
        write_archive(self, buf)
    }

    fn from_archive(buf: &AlignedVec<64>) -> (r: Result<Self, BoxedError>) {
        read_archive(buf)
    }
}

impl Archivable for ImuSample {
    fn archive_into(&self, buf: &mut AlignedVec<64>) -> (r: Result<(), BoxedError>) {
        write_imu(self, buf)
    }

    fn from_archive(buf: &AlignedVec<64>) -> (r: Result<Self, BoxedError>) {
        read_imu(buf)
    }
}

impl Archivable for GpsSample {
    fn archive_into(&self, buf: &mut AlignedVec<64>) -> (r: Result<(), BoxedError>) {
        write_gps(self, buf)
    }

    fn from_archive(buf: &AlignedVec<64>) -> (r: Result<Self, BoxedError>) {
        read_gps(buf)
    }
}

impl Archivable for TelemetryPacket {
    fn archive_into(&self, buf: &mut AlignedVec<64>) -> (r: Result<(), BoxedError>) {
        write_telemetry(self, buf)
    }

    fn from_archive(buf: &AlignedVec<64>) -> (r: Result<Self, BoxedError>) {
        read_telemetry(buf)
    }
}

/// Why a wire struct was not archived or not read.
#[derive(Debug, Clone, Copy, PartialEq, Eq, Structural)]
pub enum WireError {
    /// The archiver gave up.
    Refused,
    /// There are fewer bytes than an archive has.
    Truncated,
    /// The archive does not start where it could.
    Misaligned,
}

/// Serializes a wire struct directly into the caller's buffer, reusing its
/// backing allocation. Returns the number of bytes written.
pub fn serialize_into<T: Archivable>(value: &T, buf: &mut AlignedBuf) -> (r: Result<
    usize,
    WireError,
>)
    ensures
        r is Ok,
        r->Ok_0 == T::wire_len(),
        held(*final(buf)) == value.wire(),
{
    clear(buf);
    match value.archive_into(buf) {
        Ok(_) => {},
        Err(_) => {
            return Err(WireError::Refused);
        },
    }
    proof {
        value.lemma_wire_len();
    }
    Ok(len(buf))
}

/// What the archive at the end of a buffer says.
pub open spec fn archived<T: Archivable>(b: Seq<u8>) -> Result<T, WireError> {
    let n = T::wire_len();
    if b.len() < n {
        Err(WireError::Truncated)
    } else if (b.len() - n) % 8 != 0 {
        Err(WireError::Misaligned)
    } else {
        Ok(decoded::<T>(b.skip(b.len() - n)))
    }
}

/// Reads the archive at the end of a buffer.
pub fn access_root<T: Archivable>(buf: &AlignedBuf) -> (r: Result<T, WireError>)
    ensures
        r == archived::<T>(held(*buf)),
{
    let n: usize = len(buf);
    match T::from_archive(buf) {
        Ok(c) => {
            proof {
                let tail = held(*buf).skip(held(*buf).len() - T::wire_len());
                assert(tail.take(T::wire_len() as int) =~= tail);
                lemma_decoded_is(tail, c);
            }
            Ok(c)
        },
        Err(_) => if n < T::size() {
            Err(WireError::Truncated)
        } else {
            Err(WireError::Misaligned)
        },
    }
}

/// The archive that [`serialize_into`] writes gives the wire struct back.
pub proof fn law_archive_reads_back<T: Archivable>(c: T)
    ensures
        archived::<T>(c.wire()) == Ok::<T, WireError>(c),
{
    c.lemma_wire_len();
    assert(c.wire().skip(0) =~= c.wire());
    assert(c.wire() + Seq::<u8>::empty() =~= c.wire());
    law_decoded_reads_back(c, Seq::<u8>::empty());
}

/// A value is read from the end of what is held, behind whole steps of eight bytes;
/// fewer bytes than it has are too few, and any other number of bytes before it
/// leaves it misaligned.
pub proof fn law_root_stands_at_the_end<T: Archivable>(c: T, before: Seq<u8>)
    ensures
        before.len() % 8 == 0 ==> archived::<T>(before + c.wire()) == Ok::<T, WireError>(c),
        before.len() % 8 != 0 ==> archived::<T>(before + c.wire()) == Err::<T, WireError>(
            WireError::Misaligned,
        ),
        before.len() < T::wire_len() ==> archived::<T>(before) == Err::<T, WireError>(
            WireError::Truncated,
        ),
{
    c.lemma_wire_len();
    let b = before + c.wire();
    assert(b.skip(before.len() as int) =~= c.wire());
    assert(c.wire().take(T::wire_len() as int) =~= c.wire());
    lemma_decoded_is(c.wire(), c);
}

} // verus!
