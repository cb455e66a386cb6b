//! Offline replay of a flight data recording: arguments, a summary, and one
//! decoded line per frame, with the pauses between them.
use vstd::prelude::*;
use crate::analytics::record::{record_kind, FdrEntry, RecordKind, MAX_PAYLOAD};
use crate::cli::format::{
    bool_str, bool_text, list_text, pad_right, push_fixed, push_fixed_right, push_left, push_list,
    push_number_left, push_number_right,
};
use crate::num::binary::{double_as_u64, double_of_u64, double_to_u64, nearest, Width};
use crate::num::convert::{divide, quotient};
use crate::num::decimal::{fixed, pad_left, read, read_value};
use crate::runtime::mode::{mode_name, mode_of};
use crate::runtime::wire::{
    decoded, from_bytes_aligned, kind_name, kind_of, ControlCommand, GpsSample, ImuSample,
    PlainBytes, TelemetryKind, TelemetryPacket,
};
use crate::text::{
    chars_of, decimal, parse_unsigned, push_decimal, same_text, starts_with, text_opt, unsigned_up_to,
};

verus! {

// --- Arguments -----------------------------------------------------------------------

/// What to replay and how.
#[derive(Debug)]
pub struct ReplayArgs {
    /// Recording to read.
    pub path: String,
    /// Replay at so many times the recorded pace, as the bit pattern of a
    /// double; without pauses if absent.
    pub speed: Option<u64>,
    /// Show this kind of frame only.
    pub kind: Option<RecordKind>,
    /// Show so many frames at most.
    pub limit: Option<usize>,
}

/// Why the arguments were refused.
#[derive(Debug, PartialEq, Eq)]
pub enum ReplayError {
    /// `--speed` without a positive number.
    Speed,
    /// `--kind` without the name of a kind.
    Kind,
    /// `--limit` without a number.
    Limit,
    /// An argument that is not understood.
    Unrecognized(String),
    /// No recording is named.
    Usage,
}

/// What [`ReplayArgs`] say.
#[verifier::ext_equal]
pub ghost struct Request {
    pub path: Option<Seq<char>>,
    pub speed: Option<u64>,
    pub kind: Option<RecordKind>,
    pub limit: Option<usize>,
}

/// What a [`ReplayError`] says.
pub ghost enum Refusal {
    Speed,
    Kind,
    Limit,
    Unrecognized(Seq<char>),
    Usage,
}

impl View for ReplayError {
    type V = Refusal;

    open spec fn view(&self) -> Refusal {
        match *self {
            ReplayError::Speed => Refusal::Speed,
            ReplayError::Kind => Refusal::Kind,
            ReplayError::Limit => Refusal::Limit,
            ReplayError::Unrecognized(s) => Refusal::Unrecognized(s@),
            ReplayError::Usage => Refusal::Usage,
        }
    }
}

/// The texts of several strings.
pub open spec fn texts(v: Seq<String>) -> Seq<Seq<char>> {
    v.map_values(|s: String| s@)
}

/// The argument at `i`, if there is one.
pub open spec fn arg_at(args: Seq<Seq<char>>, i: int) -> Option<Seq<char>> {
    if 0 <= i < args.len() {
        Some(args[i])
    } else {
        None
    }
}

/// The kind that a name stands for.
pub open spec fn kind_named(s: Seq<char>) -> Option<RecordKind> {
    if s == "control"@ {
        Some(RecordKind::Control)
    } else if s == "imu"@ {
        Some(RecordKind::Imu)
    } else if s == "gps"@ {
        Some(RecordKind::Gps)
    } else if s == "telemetry"@ {
        Some(RecordKind::Telemetry)
    } else {
        None
    }
}

/// The positive number that an argument writes.
pub open spec fn speed_named(s: Seq<char>) -> Option<u64> {
    match read_value(Width::Double, s) {
        Some(b) => if 0 < b <= Width::Double.infinity() {
            Some(b as u64)
        } else {
            None
        },
        None => None,
    }
}

/// What the arguments from `i` on add to `r`.
pub open spec fn request_from(args: Seq<Seq<char>>, i: int, r: Request) -> Result<Request, Refusal>
    decreases args.len() - i,
{
    if i >= args.len() || i < 0 {
        if r.path is None {
            Err(Refusal::Usage)
        } else {
            Ok(r)
        }
    } else if args[i] == "--speed"@ {
        match arg_at(args, i + 1) {
            Some(s) => match speed_named(s) {
                Some(v) => request_from(args, i + 2, Request { speed: Some(v), ..r }),
                None => Err(Refusal::Speed),
            },
            None => Err(Refusal::Speed),
        }
    } else if args[i] == "--kind"@ {
        match arg_at(args, i + 1) {
            Some(s) => match kind_named(s) {
                Some(k) => request_from(args, i + 2, Request { kind: Some(k), ..r }),
                None => Err(Refusal::Kind),
            },
            None => Err(Refusal::Kind),
        }
    } else if args[i] == "--limit"@ {
        match arg_at(args, i + 1) {
            Some(s) => match unsigned_up_to(s, usize::MAX as nat) {
                Some(n) => request_from(args, i + 2, Request { limit: Some(n as usize), ..r }),
                None => Err(Refusal::Limit),
            },
            None => Err(Refusal::Limit),
        }
    } else if r.path is None && !"--"@.is_prefix_of(args[i]) {
        request_from(args, i + 1, Request { path: Some(args[i]), ..r })
    } else {
        Err(Refusal::Unrecognized(args[i]))
    }
}

/// Nothing asked for yet.
pub open spec fn blank_request() -> Request {
    Request { path: None, speed: None, kind: None, limit: None }
}

/// Parses the name of a frame kind.
pub fn parse_kind(s: &str) -> (r: Option<RecordKind>)
    ensures
        r == kind_named(s@),
{
    if same_text(s, "control") {
        Some(RecordKind::Control)
    } else if same_text(s, "imu") {
        Some(RecordKind::Imu)
    } else if same_text(s, "gps") {
        Some(RecordKind::Gps)
    } else if same_text(s, "telemetry") {
        Some(RecordKind::Telemetry)
    } else {
        None
    }
}

fn parse_speed(s: &str) -> (r: Option<u64>)
    ensures
        r == speed_named(s@),
{
    let chars: Vec<char> = chars_of(s);
    match read(Width::Double, chars.as_slice()) {
        Some(b) => if 0 < b && b <= 0x7ff0_0000_0000_0000 {
            Some(b)
        } else {
            None
        },
        None => None,
    }
}

fn parse_limit(s: &str) -> (r: Option<usize>)
    ensures
        match r {
            Some(n) => unsigned_up_to(s@, usize::MAX as nat) == Some(n as nat),
            None => unsigned_up_to(s@, usize::MAX as nat) is None,
        },
{
    let chars: Vec<char> = chars_of(s);
    match parse_unsigned(chars.as_slice(), usize::MAX as u64) {
        Some(n) => Some(n as usize),
        None => None,
    }
}

/// Parses the arguments of the `replay` command.
pub fn parse_args(args: &[String]) -> (r: Result<ReplayArgs, ReplayError>)
    ensures
        match r {
            Ok(a) => request_from(texts(args@), 0, blank_request()) == Ok::<Request, Refusal>(
                Request {
                    path: Some(a.path@),
                    speed: a.speed,
                    kind: a.kind,
                    limit: a.limit,
                },
            ),
            Err(e) => request_from(texts(args@), 0, blank_request()) == Err::<Request, Refusal>(
                e@,
            ),
        },
{
    let ghost all = texts(args@);
    let mut path: Option<String> = None;
    let mut speed: Option<u64> = None;
    let mut kind: Option<RecordKind> = None;
    let mut limit: Option<usize> = None;
    let mut i: usize = 0;
    let dashes: Vec<char> = chars_of("--");
    let ghost mut so_far = blank_request();
    while i < args.len()
        invariant
            i <= args@.len(),
            all == texts(args@),
            dashes@ == "--"@,
            so_far == (Request {
                path: text_opt(path),
                speed,
                kind,
                limit,
            }),
            request_from(all, 0, blank_request()) == request_from(all, i as int, so_far),
        decreases args@.len() - i,
    {
        let arg: &str = args[i].as_str();
        assert(all[i as int] == arg@);
        if same_text(arg, "--speed") {
            if args.len() - i < 2 {
                return Err(ReplayError::Speed);
            }
            assert(all[i + 1] == args@[i + 1]@);
            match parse_speed(args[i + 1].as_str()) {
                Some(v) => {
                    speed = Some(v);
                },
                None => {
                    return Err(ReplayError::Speed);
                },
            }
            i = i + 2;
        } else if same_text(arg, "--kind") {
            if args.len() - i < 2 {
                return Err(ReplayError::Kind);
            }
            assert(all[i + 1] == args@[i + 1]@);
            match parse_kind(args[i + 1].as_str()) {
                Some(k) => {
                    kind = Some(k);
                },
                None => {
                    return Err(ReplayError::Kind);
                },
            }
            i = i + 2;
        } else if same_text(arg, "--limit") {
            if args.len() - i < 2 {
                return Err(ReplayError::Limit);
            }
            assert(all[i + 1] == args@[i + 1]@);
            match parse_limit(args[i + 1].as_str()) {
                Some(n) => {
                    limit = Some(n);
                },
                None => {
                    return Err(ReplayError::Limit);
                },
            }
            i = i + 2;
        } else {
            let chars: Vec<char> = chars_of(arg);
            if path.is_none() && !starts_with(chars.as_slice(), dashes.as_slice()) {
                path = Some(arg.to_owned());
            } else {
                return Err(ReplayError::Unrecognized(arg.to_owned()));
            }
            i = i + 1;
        }
        proof {
            so_far = Request {
                path: text_opt(path),
                speed,
                kind,
                limit,
            };
        }
    }
    match path {
        Some(p) => Ok(ReplayArgs { path: p, speed, kind, limit }),
        None => Err(ReplayError::Usage),
    }
}

// --- Lines ---------------------------------------------------------------------------

/// What a difference is, or 0.
pub open spec fn at_least_zero(n: int) -> nat {
    if n < 0 {
        0
    } else {
        n as nat
    }
}

/// An integer as the nearest double.
pub open spec fn as_double(n: nat) -> nat {
    nearest(Width::Double, n, 1)
}

/// `n / d` in double precision, both first rounded to doubles.
pub open spec fn ratio(n: nat, d: nat) -> nat {
    quotient(as_double(n), as_double(d))
}

/// The start of a line: its number, and the time since `t0` in milliseconds.
pub open spec fn line_head(idx: nat, timestamp_ns: u64, t0: u64) -> Seq<char> {
    "["@ + pad_left(decimal(idx), 6, ' ') + "] t=+"@ + pad_left(
        fixed(Width::Double, ratio(at_least_zero(timestamp_ns - t0), 1_000_000), 3),
        10,
        ' ',
    ) + "ms "@
}

/// What a command says.
pub open spec fn control_text(c: ControlCommand) -> Seq<char> {
    "CONTROL   seq="@ + pad_right(decimal(c.seq as nat), 6) + " mode="@ + pad_right(
        match mode_of(c.mode) {
            Some(m) => mode_name(m),
            None => "?"@,
        },
        12,
    ) + " ai="@ + pad_right(bool_text(c.from_autonomy()), 5) + " axes="@ + list_text(c.axes@)
}

/// What an inertial sample says.
pub open spec fn imu_text(s: ImuSample) -> Seq<char> {
    "IMU       seq="@ + pad_right(decimal(s.seq as nat), 6) + " gyro_rps="@ + list_text(
        s.gyro_rps@,
    ) + " accel_g="@ + list_text(s.accel_g@)
}

/// What a position says.
pub open spec fn gps_text(s: GpsSample) -> Seq<char> {
    "GPS       seq="@ + pad_right(decimal(s.seq as nat), 6) + " lat="@ + fixed(
        Width::Double,
        s.lat_deg as nat,
        6,
    ) + " lon="@ + fixed(Width::Double, s.lon_deg as nat, 6) + " alt="@ + fixed(
        Width::Double,
        s.alt_m as nat,
        1,
    ) + "m speed="@ + fixed(Width::Single, s.speed_mps as nat, 1) + "m/s sats="@ + decimal(
        s.sats as nat,
    ) + " fix="@ + bool_text(s.fix_ok != 0)
}

/// What a telemetry packet says.
pub open spec fn telemetry_text(p: TelemetryPacket) -> Seq<char> {
    "TELEMETRY seq="@ + pad_right(decimal(p.seq as nat), 6) + " kind="@ + pad_right(
        match kind_of(p.kind) {
            Some(k) => kind_name(k),
            None => "?"@,
        },
        12,
    ) + " values="@ + list_text(p.values@)
}

/// What a frame says.
pub open spec fn frame_text(e: FdrEntry) -> Seq<char> {
    let payload = e.content();
    match record_kind(e.kind) {
        Some(RecordKind::Control) => if payload.len() < 48 {
            "CONTROL   <malformed>"@
        } else {
            control_text(decoded::<ControlCommand>(payload))
        },
        Some(RecordKind::Imu) => if payload.len() < 48 {
            "IMU       <malformed>"@
        } else {
            imu_text(decoded::<ImuSample>(payload))
        },
        Some(RecordKind::Gps) => if payload.len() < 64 {
            "GPS       <malformed>"@
        } else {
            gps_text(decoded::<GpsSample>(payload))
        },
        Some(RecordKind::Telemetry) => if payload.len() < 56 {
            "TELEMETRY <malformed>"@
        } else {
            telemetry_text(decoded::<TelemetryPacket>(payload))
        },
        Some(RecordKind::End) | None => "<end/unknown>"@,
    }
}

/// The line of a frame.
pub open spec fn line_text(idx: nat, e: FdrEntry, t0: u64) -> Seq<char> {
    line_head(idx, e.timestamp_ns, t0) + frame_text(e)
}

/// A ratio of integers in double precision.
fn ratio_of(n: u64, d: u64) -> (r: u64)
    requires
        0 < d,
    ensures
        r == ratio(n as nat, d as nat),
{
    let a: u64 = double_of_u64(n);
    let b: u64 = double_of_u64(d);
    divide(a, b)
}

/// Decodes one frame into a line.
pub fn decode_line(idx: usize, e: &FdrEntry, t0: u64) -> (r: String)
    requires
        record_kind(e.kind) is Some ==> e.payload_len <= MAX_PAYLOAD,
    ensures
        r@ == line_text(idx as nat, *e, t0),
{
    let mut s: String = "[".to_owned();
    push_number_right(&mut s, idx as u64, 6);
    s.append("] t=+");
    let since: u64 = if e.timestamp_ns > t0 {
        e.timestamp_ns - t0
    } else {
        0
    };
    push_fixed_right(&mut s, Width::Double, ratio_of(since, 1_000_000), 3, 10);
    s.append("ms ");
    let ghost head = line_head(idx as nat, e.timestamp_ns, t0);
    assert(s@ =~= head);
    match e.kind() {
        Some(RecordKind::Control) => match from_bytes_aligned::<ControlCommand>(e.payload()) {
            Some(c) => {
                push_control(&mut s, &c);
            },
            None => {
                s.append("CONTROL   <malformed>");
            },
        },
        Some(RecordKind::Imu) => match from_bytes_aligned::<ImuSample>(e.payload()) {
            Some(i) => {
                push_imu(&mut s, &i);
            },
            None => {
                s.append("IMU       <malformed>");
            },
        },
        Some(RecordKind::Gps) => match from_bytes_aligned::<GpsSample>(e.payload()) {
            Some(g) => {
                push_gps(&mut s, &g);
            },
            None => {
                s.append("GPS       <malformed>");
            },
        },
        Some(RecordKind::Telemetry) => match from_bytes_aligned::<TelemetryPacket>(e.payload()) {
            Some(p) => {
                push_telemetry(&mut s, &p);
            },
            None => {
                s.append("TELEMETRY <malformed>");
            },
        },
        Some(RecordKind::End) | None => {
            s.append("<end/unknown>");
        },
    }
    s
}

fn push_control(s: &mut String, c: &ControlCommand)
    ensures
        final(s)@ == old(s)@ + control_text(*c),
{
    s.append("CONTROL   seq=");
    push_number_left(s, c.seq, 6);
    s.append(" mode=");
    let mode: &str = match c.mode() {
        Some(m) => m.name(),
        None => "?",
    };
    push_left(s, mode, 12);
    s.append(" ai=");
    push_left(s, bool_str(c.is_ai_origin()), 5);
    s.append(" axes=");
    push_list(s, c.axes.as_slice());
    assert(s@ =~= old(s)@ + control_text(*c));
}

fn push_imu(s: &mut String, i: &ImuSample)
    ensures
        final(s)@ == old(s)@ + imu_text(*i),
{
    s.append("IMU       seq=");
    push_number_left(s, i.seq, 6);
    s.append(" gyro_rps=");
    push_list(s, i.gyro_rps.as_slice());
    s.append(" accel_g=");
    push_list(s, i.accel_g.as_slice());
    assert(s@ =~= old(s)@ + imu_text(*i));
}

fn push_gps(s: &mut String, g: &GpsSample)
    ensures
        final(s)@ == old(s)@ + gps_text(*g),
{
    let mut t: String = "GPS       seq=".to_owned();
    push_number_left(&mut t, g.seq, 6);
    t.append(" lat=");
    push_fixed(&mut t, Width::Double, g.lat_deg, 6);
    t.append(" lon=");
    push_fixed(&mut t, Width::Double, g.lon_deg, 6);
    t.append(" alt=");
    push_fixed(&mut t, Width::Double, g.alt_m, 1);
    t.append("m speed=");
    push_fixed(&mut t, Width::Single, g.speed_mps as u64, 1);
    t.append("m/s sats=");
    push_decimal(&mut t, g.sats as u64);
    t.append(" fix=");
    t.append(bool_str(g.fix_ok != 0));
    s.append(t.as_str());
}

fn push_telemetry(s: &mut String, p: &TelemetryPacket)
    ensures
        final(s)@ == old(s)@ + telemetry_text(*p),
{
    s.append("TELEMETRY seq=");
    push_number_left(s, p.seq, 6);
    s.append(" kind=");
    let kind: &str = match TelemetryKind::from_u16(p.kind) {
        Some(k) => k.name(),
        None => "?",
    };
    push_left(s, kind, 12);
    s.append(" values=");
    push_list(s, p.values.as_slice());
    assert(s@ =~= old(s)@ + telemetry_text(*p));
}

// --- The whole replay ------------------------------------------------------------------

/// How many frames are of a kind.
pub open spec fn count_of(entries: Seq<FdrEntry>, kind: RecordKind) -> nat
    decreases entries.len(),
{
    if entries.len() == 0 {
        0
    } else {
        count_of(entries.drop_last(), kind) + if record_kind(entries.last().kind) == Some(kind) {
            1nat
        } else {
            0nat
        }
    }
}

/// The line that sums a recording up.
pub open spec fn summary_text(entries: Seq<FdrEntry>) -> Seq<char> {
    "frames="@ + decimal(entries.len()) + " control="@ + decimal(
        count_of(entries, RecordKind::Control),
    ) + " imu="@ + decimal(count_of(entries, RecordKind::Imu)) + " gps="@ + decimal(
        count_of(entries, RecordKind::Gps),
    ) + " telemetry="@ + decimal(count_of(entries, RecordKind::Telemetry)) + " span="@ + fixed(
        Width::Double,
        ratio(
            at_least_zero(entries.last().timestamp_ns - entries[0].timestamp_ns),
            1_000_000_000,
        ),
        3,
    ) + "s"@
}

/// Sums a recording up in one line.
pub fn summary(entries: &[FdrEntry]) -> (r: String)
    requires
        entries@.len() > 0,
    ensures
        r@ == summary_text(entries@),
{
    let mut control: u64 = 0;
    let mut imu: u64 = 0;
    let mut gps: u64 = 0;
    let mut telemetry: u64 = 0;
    let mut i: usize = 0;
    proof {
        assert(entries@.take(0) =~= Seq::<FdrEntry>::empty());
    }
    while i < entries.len()
        invariant
            i <= entries@.len(),
            control <= i && imu <= i && gps <= i && telemetry <= i,
            control == count_of(entries@.take(i as int), RecordKind::Control),
            imu == count_of(entries@.take(i as int), RecordKind::Imu),
            gps == count_of(entries@.take(i as int), RecordKind::Gps),
            telemetry == count_of(entries@.take(i as int), RecordKind::Telemetry),
        decreases entries@.len() - i,
    {
        proof {
            assert(entries@.take(i + 1).drop_last() =~= entries@.take(i as int));
            assert(entries@.take(i + 1).last() == entries@[i as int]);
        }
        match entries[i].kind() {
            Some(RecordKind::Control) => {
                control = control + 1;
            },
            Some(RecordKind::Imu) => {
                imu = imu + 1;
            },
            Some(RecordKind::Gps) => {
                gps = gps + 1;
            },
            Some(RecordKind::Telemetry) => {
                telemetry = telemetry + 1;
            },
            _ => {},
        }
        i = i + 1;
    }
    proof {
        assert(entries@.take(i as int) =~= entries@);
    }
    let first: u64 = entries[0].timestamp_ns;
    let last: u64 = entries[entries.len() - 1].timestamp_ns;
    let span: u64 = if last > first {
        last - first
    } else {
        0
    };
    let mut s: String = "frames=".to_owned();
    push_decimal(&mut s, entries.len() as u64);
    s.append(" control=");
    push_decimal(&mut s, control);
    s.append(" imu=");
    push_decimal(&mut s, imu);
    s.append(" gps=");
    push_decimal(&mut s, gps);
    s.append(" telemetry=");
    push_decimal(&mut s, telemetry);
    s.append(" span=");
    push_fixed(&mut s, Width::Double, ratio_of(span, 1_000_000_000), 3);
    s.append("s");
    assert(s@ =~= summary_text(entries@));
    s
}

/// One step of a replay.
#[derive(Debug, PartialEq, Eq)]
pub enum Step {
    /// Print a line.
    Print(String),
    /// Wait for so many nanoseconds.
    Sleep(u64),
}

/// What a [`Step`] says.
pub ghost enum StepView {
    Print(Seq<char>),
    Sleep(u64),
}

impl View for Step {
    type V = StepView;

    open spec fn view(&self) -> StepView {
        match *self {
            Step::Print(s) => StepView::Print(s@),
            Step::Sleep(n) => StepView::Sleep(n),
        }
    }
}

/// The steps that are to be taken.
pub open spec fn steps_of(v: Seq<Step>) -> Seq<StepView> {
    v.map_values(|s: Step| s@)
}

/// The pause before a frame that follows one of the time `prev`.
pub open spec fn pause(speed: Option<u64>, prev: Option<u64>, timestamp_ns: u64) -> Seq<StepView> {
    match (speed, prev) {
        (Some(mult), Some(p)) => if timestamp_ns > p {
            seq![
                StepView::Sleep(
                    double_as_u64(
                        quotient(as_double((timestamp_ns - p) as nat), mult as nat) as u64,
                    ),
                ),
            ]
        } else {
            Seq::empty()
        },
        _ => Seq::empty(),
    }
}

/// Whether a frame is to be shown at all.
pub open spec fn wanted(kind: Option<RecordKind>, e: FdrEntry) -> bool {
    match kind {
        Some(k) => record_kind(e.kind) == Some(k),
        None => true,
    }
}

/// How many of the first `i` frames are of a kind that is to be shown.
pub open spec fn wanted_before(entries: Seq<FdrEntry>, kind: Option<RecordKind>, i: int) -> nat
    decreases i,
{
    if i <= 0 {
        0
    } else {
        wanted_before(entries, kind, i - 1) + if wanted(kind, entries[i - 1]) {
            1nat
        } else {
            0nat
        }
    }
}

/// Whether the frame at `i` is shown: it is of a kind that is to be shown, and
/// the limit is not reached before it.
pub open spec fn is_shown(
    entries: Seq<FdrEntry>,
    kind: Option<RecordKind>,
    limit: Option<usize>,
    i: int,
) -> bool {
    &&& 0 <= i < entries.len()
    &&& wanted(kind, entries[i])
    &&& limit matches Some(max) ==> wanted_before(entries, kind, i) < max
}

/// Whether a frame says that it holds more than a frame can.
pub open spec fn overlong(e: FdrEntry) -> bool {
    record_kind(e.kind) is Some && e.payload_len > MAX_PAYLOAD
}

/// How many frames are shown before the first one that cannot be, if there is
/// such a frame.
pub fn unreadable(args: &ReplayArgs, entries: &[FdrEntry]) -> (r: Option<usize>)
    ensures
        match r {
            Some(n) => exists|i: int| #[trigger]
                is_shown(entries@, args.kind, args.limit, i) && overlong(entries@[i]) && n
                    == wanted_before(entries@, args.kind, i) && forall|j: int|
                    0 <= j < i && #[trigger] is_shown(entries@, args.kind, args.limit, j)
                        ==> !overlong(entries@[j]),
            None => forall|j: int| #[trigger]
                is_shown(entries@, args.kind, args.limit, j) ==> !overlong(entries@[j]),
        },
{
    let mut shown: usize = 0;
    let mut i: usize = 0;
    while i < entries.len()
        invariant
            i <= entries@.len(),
            shown <= i,
            shown == wanted_before(entries@, args.kind, i as int),
            forall|j: int|
                0 <= j < i && #[trigger] is_shown(entries@, args.kind, args.limit, j)
                    ==> !overlong(entries@[j]),
        decreases entries@.len() - i,
    {
        if passes(args.kind, &entries[i]) {
            let open: bool = match args.limit {
                Some(max) => shown < max,
                None => true,
            };
            if open && entries[i].kind().is_some() && entries[i].payload_len as usize
                > MAX_PAYLOAD {
                assert(is_shown(entries@, args.kind, args.limit, i as int));
                return Some(shown);
            }
            shown = shown + 1;
        }
        i = i + 1;
    }
    None
}

fn passes(kind: Option<RecordKind>, e: &FdrEntry) -> (r: bool)
    ensures
        r == wanted(kind, *e),
{
    match kind {
        Some(k) => match e.kind() {
            Some(f) => f == k,
            None => false,
        },
        None => true,
    }
}

/// The steps for the frames from `i` on, where `shown` were shown before and the
/// last of them had the time `prev`. Frames of other kinds are passed over, and
/// nothing is shown past the limit.
pub open spec fn frame_steps(
    entries: Seq<FdrEntry>,
    i: int,
    speed: Option<u64>,
    kind: Option<RecordKind>,
    limit: Option<usize>,
    shown: nat,
    prev: Option<u64>,
) -> (Seq<StepView>, nat)
    decreases entries.len() - i,
{
    if i >= entries.len() || i < 0 {
        (Seq::empty(), shown)
    } else if !wanted(kind, entries[i]) {
        frame_steps(entries, i + 1, speed, kind, limit, shown, prev)
    } else if limit matches Some(max) && shown >= max {
        (Seq::empty(), shown)
    } else {
        let e = entries[i];
        let (rest, n) = frame_steps(
            entries,
            i + 1,
            speed,
            kind,
            limit,
            shown + 1,
            Some(e.timestamp_ns),
        );
        (
            pause(speed, prev, e.timestamp_ns) + seq![
                StepView::Print(line_text(shown, e, entries[0].timestamp_ns)),
            ] + rest,
            n,
        )
    }
}

/// The steps of a replay.
pub open spec fn replay_steps(
    path: Seq<char>,
    speed: Option<u64>,
    kind: Option<RecordKind>,
    limit: Option<usize>,
    entries: Seq<FdrEntry>,
) -> Seq<StepView> {
    if entries.len() == 0 {
        seq![StepView::Print(path + ": no frames"@)]
    } else {
        let (frames, shown) = frame_steps(entries, 0, speed, kind, limit, 0, None);
        seq![
            StepView::Print("== "@ + path + " =="@),
            StepView::Print(summary_text(entries)),
            StepView::Print("---"@),
        ] + frames + seq![StepView::Print("-- "@ + decimal(shown) + " frame(s) shown --"@)]
    }
}

/// Plans the replay of a recording: what to print, and the pauses in between.
pub fn replay(args: &ReplayArgs, entries: &[FdrEntry]) -> (r: Vec<Step>)
    requires
        args.speed matches Some(v) ==> 0 < v <= Width::Double.infinity(),
        forall|i: int| #[trigger]
            is_shown(entries@, args.kind, args.limit, i) ==> !overlong(entries@[i]),
    ensures
        steps_of(r@) == replay_steps(args.path@, args.speed, args.kind, args.limit, entries@),
{
    let mut out: Vec<Step> = Vec::new();
    if entries.len() == 0 {
        let mut s: String = args.path.as_str().to_owned();
        s.append(": no frames");
        out.push(Step::Print(s));
        assert(steps_of(out@) =~= seq![StepView::Print(args.path@ + ": no frames"@)]);
        return out;
    }
    let mut title: String = "== ".to_owned();
    title.append(args.path.as_str());
    title.append(" ==");
    out.push(Step::Print(title));
    out.push(Step::Print(summary(entries)));
    out.push(Step::Print("---".to_owned()));
    let ghost head = seq![
        StepView::Print("== "@ + args.path@ + " =="@),
        StepView::Print(summary_text(entries@)),
        StepView::Print("---"@),
    ];
    let ghost whole = frame_steps(entries@, 0, args.speed, args.kind, args.limit, 0, None);
    assert(steps_of(out@) =~= head);
    let t0: u64 = entries[0].timestamp_ns;
    let mut prev: Option<u64> = None;
    let mut shown: usize = 0;
    let mut i: usize = 0;
    assert(head + whole.0 =~= steps_of(out@) + whole.0);
    while i < entries.len()
        invariant
            i <= entries@.len(),
            shown <= i,
            entries@.len() > 0,
            t0 == entries@[0].timestamp_ns,
            args.speed matches Some(v) ==> 0 < v <= Width::Double.infinity(),
            forall|j: int| #[trigger]
                is_shown(entries@, args.kind, args.limit, j) ==> !overlong(entries@[j]),
            shown == wanted_before(entries@, args.kind, i as int),
            ({
                let (rest, n) = frame_steps(
                    entries@,
                    i as int,
                    args.speed,
                    args.kind,
                    args.limit,
                    shown as nat,
                    prev,
                );
                &&& steps_of(out@) + rest == head + whole.0
                &&& n == whole.1
            }),
        ensures
            steps_of(out@) == head + whole.0,
            shown == whole.1,
        decreases entries@.len() - i,
    {
        let e: FdrEntry = entries[i];
        let ghost before = steps_of(out@);
        let ghost rest = frame_steps(
            entries@,
            i as int,
            args.speed,
            args.kind,
            args.limit,
            shown as nat,
            prev,
        );
        if passes(args.kind, &e) {
            if let Some(max) = args.limit {
                if shown >= max {
                    assert(before + Seq::<StepView>::empty() =~= before);
                    break;
                }
            }
            let ghost more = frame_steps(
                entries@,
                i + 1,
                args.speed,
                args.kind,
                args.limit,
                (shown + 1) as nat,
                Some(e.timestamp_ns),
            );
            let ghost waiting = pause(args.speed, prev, e.timestamp_ns);
            if let Some(mult) = args.speed {
                if let Some(p) = prev {
                    if e.timestamp_ns > p {
                        out.push(Step::Sleep(wait_for(e.timestamp_ns - p, mult)));
                    }
                }
            }
            assert(steps_of(out@) =~= before + waiting);
            assert(is_shown(entries@, args.kind, args.limit, i as int));
            let line: String = decode_line(shown, &e, t0);
            let ghost text = line@;
            out.push(Step::Print(line));
            proof {
                assert(steps_of(out@) =~= before + waiting + seq![StepView::Print(text)]);
                assert(rest.0 =~= waiting + seq![StepView::Print(text)] + more.0);
                assert(before + rest.0 =~= steps_of(out@) + more.0);
            }
            prev = Some(e.timestamp_ns);
            shown = shown + 1;
        }
        i = i + 1;
        if i == entries.len() {
            assert(steps_of(out@) + Seq::<StepView>::empty() =~= steps_of(out@));
        }
    }
    let mut tail: String = "-- ".to_owned();
    push_decimal(&mut tail, shown as u64);
    tail.append(" frame(s) shown --");
    let ghost before = steps_of(out@);
    out.push(Step::Print(tail));
    assert(steps_of(out@) =~= head + whole.0 + seq![
        StepView::Print("-- "@ + decimal(whole.1) + " frame(s) shown --"@),
    ]);
    out
}

/// How long to wait for `delta_ns` recorded nanoseconds at `mult` times the pace.
fn wait_for(delta_ns: u64, mult: u64) -> (r: u64)
    requires
        0 < mult <= Width::Double.infinity(),
    ensures
        r == double_as_u64(quotient(as_double(delta_ns as nat), mult as nat) as u64),
{
    double_to_u64(divide(double_of_u64(delta_ns), mult))
}

/// No more frames are shown than the limit allows.
pub proof fn law_limit_is_kept(
    entries: Seq<FdrEntry>,
    i: int,
    speed: Option<u64>,
    kind: Option<RecordKind>,
    max: usize,
    shown: nat,
    prev: Option<u64>,
)
    requires
        0 <= i <= entries.len(),
        shown <= max,
    ensures
        shown <= frame_steps(entries, i, speed, kind, Some(max), shown, prev).1 <= max,
    decreases entries.len() - i,
{
    if i < entries.len() {
        let e = entries[i];
        if !wanted(kind, e) {
            law_limit_is_kept(entries, i + 1, speed, kind, max, shown, prev);
        } else if shown < max {
            law_limit_is_kept(
                entries,
                i + 1,
                speed,
                kind,
                max,
                shown + 1,
                Some(e.timestamp_ns),
            );
        }
    }
}

} // verus!
