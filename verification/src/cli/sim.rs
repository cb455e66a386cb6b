//! Live simulator readout: its arguments, its course and its lines.
use vstd::prelude::*;
use crate::cli::format::{push_fixed, push_fixed_right, push_number_right};
use crate::cli::replay::{arg_at, texts};
use crate::num::binary::Width;
use crate::num::decimal::{fixed, magnitude, pad_left, read, read_value, sign_set, split_sign};
use crate::text::{chars_of, decimal, parse_unsigned, push_decimal, same_text, unsigned_up_to};

verus! {

/// Control tick period (5 ms).
pub const DT_NS: u64 = 5_000_000;

/// The double 1.
pub const ONE_DOUBLE: u64 = 0x3ff0_0000_0000_0000;

/// The single-precision number 1.
pub const ONE_SINGLE: u32 = 0x3f80_0000;

/// How to run the simulator. Numbers with a fraction are held as bit patterns.
#[derive(Debug, Clone, Copy, PartialEq, Eq, Structural)]
pub struct SimArgs {
    /// Number of control ticks.
    pub ticks: u64,
    /// Ticks shown per second (a double, at least 1).
    pub rate_hz: u64,
    /// Throttle (single precision, from 0 to 1).
    pub throttle: u32,
    /// Roll (single precision, radians).
    pub roll: u32,
}

/// Why the arguments were refused.
#[derive(Debug, PartialEq, Eq)]
pub enum SimError {
    /// `--ticks` without a number.
    Ticks,
    /// `--rate` without a number.
    Rate,
    /// `--throttle` without a number.
    Throttle,
    /// `--roll` without a number.
    Roll,
    /// An argument that is not understood.
    Unrecognized(String),
}

/// What a [`SimError`] says.
pub ghost enum Refusal {
    Ticks,
    Rate,
    Throttle,
    Roll,
    Unrecognized(Seq<char>),
}

impl View for SimError {
    type V = Refusal;

    open spec fn view(&self) -> Refusal {
        match *self {
            SimError::Ticks => Refusal::Ticks,
            SimError::Rate => Refusal::Rate,
            SimError::Throttle => Refusal::Throttle,
            SimError::Roll => Refusal::Roll,
            SimError::Unrecognized(s) => Refusal::Unrecognized(s@),
        }
    }
}

/// A rate, at least 1. What is no number counts as 1.
pub open spec fn at_least_one(bits: u64) -> u64 {
    if bits > Width::Double.infinity() || bits < ONE_DOUBLE {
        ONE_DOUBLE
    } else {
        bits
    }
}

/// A number between 0 and 1: what is below becomes 0, what is above becomes 1, and
/// what is no number stays.
pub open spec fn clamped(bits: u32) -> u32 {
    let b = magnitude(Width::Single, bits as nat);
    if b > Width::Single.infinity() || b == 0 {
        bits
    } else if sign_set(Width::Single, bits as nat) {
        0
    } else if bits > ONE_SINGLE {
        ONE_SINGLE
    } else {
        bits
    }
}

fn clamp_unit(bits: u32) -> (r: u32)
    ensures
        r == clamped(bits),
{
    let (b, negative): (u64, bool) = split_sign(Width::Single, bits as u64);
    if b > 0x7f80_0000 || b == 0 {
        bits
    } else if negative {
        0
    } else if bits > ONE_SINGLE {
        ONE_SINGLE
    } else {
        bits
    }
}

/// What is run without arguments: 200 ticks at 20 per second, with 55 % throttle
/// and no roll.
pub open spec fn default_args() -> SimArgs {
    SimArgs { ticks: 200, rate_hz: 0x4034_0000_0000_0000, throttle: 0x3f0c_cccd, roll: 0 }
}

/// What the arguments from `i` on make of `a`.
pub open spec fn args_from(args: Seq<Seq<char>>, i: int, a: SimArgs) -> Result<SimArgs, Refusal>
    decreases args.len() - i,
{
    if i >= args.len() || i < 0 {
        Ok(a)
    } else if args[i] == "--ticks"@ {
        match arg_at(args, i + 1) {
            Some(s) => match unsigned_up_to(s, u64::MAX as nat) {
                Some(n) => args_from(args, i + 2, SimArgs { ticks: n as u64, ..a }),
                None => Err(Refusal::Ticks),
            },
            None => Err(Refusal::Ticks),
        }
    } else if args[i] == "--rate"@ {
        match arg_at(args, i + 1) {
            Some(s) => match read_value(Width::Double, s) {
                Some(b) => args_from(
                    args,
                    i + 2,
                    SimArgs { rate_hz: at_least_one(b as u64), ..a },
                ),
                None => Err(Refusal::Rate),
            },
            None => Err(Refusal::Rate),
        }
    } else if args[i] == "--throttle"@ {
        match arg_at(args, i + 1) {
            Some(s) => match read_value(Width::Single, s) {
                Some(b) => args_from(args, i + 2, SimArgs { throttle: clamped(b as u32), ..a }),
                None => Err(Refusal::Throttle),
            },
            None => Err(Refusal::Throttle),
        }
    } else if args[i] == "--roll"@ {
        match arg_at(args, i + 1) {
            Some(s) => match read_value(Width::Single, s) {
                Some(b) => args_from(args, i + 2, SimArgs { roll: b as u32, ..a }),
                None => Err(Refusal::Roll),
            },
            None => Err(Refusal::Roll),
        }
    } else {
        Err(Refusal::Unrecognized(args[i]))
    }
}

/// Parses the arguments of the `sim` command.
pub fn parse_args(args: &[String]) -> (r: Result<SimArgs, SimError>)
    ensures
        match r {
            Ok(a) => args_from(texts(args@), 0, default_args()) == Ok::<SimArgs, Refusal>(a),
            Err(e) => args_from(texts(args@), 0, default_args()) == Err::<SimArgs, Refusal>(e@),
        },
{
    let ghost all = texts(args@);
    let mut a: SimArgs = SimArgs {
        ticks: 200,
        rate_hz: 0x4034_0000_0000_0000,
        throttle: 0x3f0c_cccd,
        roll: 0,
    };
    let mut i: usize = 0;
    while i < args.len()
        invariant
            i <= args@.len(),
            all == texts(args@),
            args_from(all, 0, default_args()) == args_from(all, i as int, a),
        decreases args@.len() - i,
    {
        let arg: &str = args[i].as_str();
        assert(all[i as int] == arg@);
        let more: bool = args.len() - i >= 2;
        let value: Vec<char> = if more {
            chars_of(args[i + 1].as_str())
        } else {
            Vec::new()
        };
        assert(more ==> all[i + 1] == value@);
        if same_text(arg, "--ticks") {
            if !more {
                return Err(SimError::Ticks);
            }
            match parse_unsigned(value.as_slice(), u64::MAX) {
                Some(n) => {
                    a.ticks = n;
                },
                None => {
                    return Err(SimError::Ticks);
                },
            }
        } else if same_text(arg, "--rate") {
            if !more {
                return Err(SimError::Rate);
            }
            match read(Width::Double, value.as_slice()) {
                Some(b) => {
                    a.rate_hz = if b > 0x7ff0_0000_0000_0000 || b < ONE_DOUBLE {
                        ONE_DOUBLE
                    } else {
                        b
                    };
                },
                None => {
                    return Err(SimError::Rate);
                },
            }
        } else if same_text(arg, "--throttle") {
            if !more {
                return Err(SimError::Throttle);
            }
            match read(Width::Single, value.as_slice()) {
                Some(b) => {
                    a.throttle = clamp_unit(b as u32);
                },
                None => {
                    return Err(SimError::Throttle);
                },
            }
        } else if same_text(arg, "--roll") {
            if !more {
                return Err(SimError::Roll);
            }
            match read(Width::Single, value.as_slice()) {
                Some(b) => {
                    a.roll = b as u32;
                },
                None => {
                    return Err(SimError::Roll);
                },
            }
        } else {
            return Err(SimError::Unrecognized(arg.to_owned()));
        }
        i = i + 2;
    }
    Ok(a)
}

/// The line of one tick: position in metres, the routed roll and throttle, and
/// the number of routed commands.
pub open spec fn tick_text(
    tick: u64,
    x: u64,
    y: u64,
    z: u64,
    roll: u32,
    throttle: u32,
    routed: u64,
) -> Seq<char> {
    pad_left(decimal(tick as nat), 4, ' ') + " | "@ + pad_left(
        fixed(Width::Double, x as nat, 2),
        8,
        ' ',
    ) + " "@ + pad_left(fixed(Width::Double, y as nat, 2), 8, ' ') + " "@ + pad_left(
        fixed(Width::Double, z as nat, 2),
        8,
        ' ',
    ) + " | "@ + pad_left(fixed(Width::Single, roll as nat, 3), 8, ' ') + " "@ + pad_left(
        fixed(Width::Single, throttle as nat, 3),
        10,
        ' ',
    ) + " | "@ + decimal(routed as nat)
}

/// The line of one tick.
pub fn tick_line(tick: u64, x: u64, y: u64, z: u64, roll: u32, throttle: u32, routed: u64) -> (r:
    String)
    ensures
        r@ == tick_text(tick, x, y, z, roll, throttle, routed),
{
    let mut s: String = String::new();
    push_number_right(&mut s, tick, 4);
    s.append(" | ");
    push_fixed_right(&mut s, Width::Double, x, 2, 8);
    s.append(" ");
    push_fixed_right(&mut s, Width::Double, y, 2, 8);
    s.append(" ");
    push_fixed_right(&mut s, Width::Double, z, 2, 8);
    s.append(" | ");
    push_fixed_right(&mut s, Width::Single, roll as u64, 3, 8);
    s.append(" ");
    push_fixed_right(&mut s, Width::Single, throttle as u64, 3, 10);
    s.append(" | ");
    push_decimal(&mut s, routed);
    assert(s@ =~= tick_text(tick, x, y, z, roll, throttle, routed));
    s
}

/// The closing line.
pub open spec fn final_text(x: u64, y: u64, z: u64, routed: u64) -> Seq<char> {
    "\nfinal pose: x="@ + fixed(Width::Double, x as nat, 2) + " y="@ + fixed(
        Width::Double,
        y as nat,
        2,
    ) + " z="@ + fixed(Width::Double, z as nat, 2) + "  routed="@ + decimal(routed as nat)
}

/// The closing line.
pub fn final_line(x: u64, y: u64, z: u64, routed: u64) -> (r: String)
    ensures
        r@ == final_text(x, y, z, routed),
{
    let mut s: String = "\nfinal pose: x=".to_owned();
    push_fixed(&mut s, Width::Double, x, 2);
    s.append(" y=");
    push_fixed(&mut s, Width::Double, y, 2);
    s.append(" z=");
    push_fixed(&mut s, Width::Double, z, 2);
    s.append("  routed=");
    push_decimal(&mut s, routed);
    s
}

/// What is printed before the first tick.
pub const OPENING: &'static str = "tpt-teleop simulator — Phase-4 drone + safety loop\ntick |    x(m)     y(m)     z(m) | roll_cmd  throttle | routed\n-----+----------------------------------+------------------+-------";

/// What the controller reports at one tick. The axes are bit patterns in single
/// precision: roll comes first, throttle fourth, the others stay at zero.
#[derive(Debug, Clone, Copy, PartialEq, Eq)]
pub struct TickReport {
    /// The tick's number, in 32 bits.
    pub seq: u32,
    /// No button is held.
    pub buttons: u32,
    /// Axes.
    pub axes: [u32; 8],
    /// When the tick falls, from the start of the run.
    pub timestamp_ns: u64,
}

/// Where the vehicle is (doubles), and how many commands were routed.
#[derive(Debug, Clone, Copy, PartialEq, Eq, Structural)]
pub struct Readout {
    pub x: u64,
    pub y: u64,
    pub z: u64,
    pub routed: u64,
}

/// A run of the simulator: a number of ticks, one after the other.
#[derive(Debug)]
pub struct SimRun {
    ticks: u64,
    tick: u64,
}

/// The axes of a stick that is held at the given roll and throttle.
pub open spec fn stick(roll: u32, throttle: u32) -> Seq<u32> {
    seq![roll, 0, 0, throttle, 0, 0, 0, 0]
}

impl SimRun {
    /// How many ticks the run has.
    pub closed spec fn total(&self) -> u64 {
        self.ticks
    }

    /// How many ticks are past.
    pub closed spec fn past(&self) -> u64 {
        self.tick
    }

    /// No more ticks are past than there are.
    pub open spec fn wf(&self) -> bool {
        self.past() <= self.total()
    }

    /// Before the first tick.
    pub fn new(ticks: u64) -> (r: SimRun)
        ensures
            r.wf(),
            r.total() == ticks,
            r.past() == 0,
    {
        SimRun { ticks, tick: 0 }
    }

    /// The number of the coming tick, if there is one.
    pub fn coming(&self) -> (r: Option<u64>)
        requires
            self.wf(),
        ensures
            r == (if self.past() < self.total() {
                Some(self.past())
            } else {
                None
            }),
    {
        if self.tick < self.ticks {
            Some(self.tick)
        } else {
            None
        }
    }

    /// The report of the coming tick, for the given roll and throttle.
    pub fn report(&self, roll: u32, throttle: u32) -> (r: TickReport)
        requires
            self.past() * DT_NS <= u64::MAX,
        ensures
            r.seq == self.past() % 0x1_0000_0000,
            r.buttons == 0,
            r.axes@ == seq![roll, 0, 0, throttle, 0, 0, 0, 0],
            r.axes@ == stick(roll, throttle),
            r.timestamp_ns == self.past() * DT_NS,
    {
        let axes: [u32; 8] = [roll, 0, 0, throttle, 0, 0, 0, 0];
        assert(axes@ =~= seq![roll, 0, 0, throttle, 0, 0, 0, 0]);
        TickReport {
            seq: (self.tick % 0x1_0000_0000) as u32,
            buttons: 0,
            axes,
            timestamp_ns: self.tick * DT_NS,
        }
    }

    /// Ends the coming tick: its line, for the roll and throttle of the command
    /// that came out of the pipeline, or zeros where none did.
    pub fn stepped(&mut self, command: Option<(u32, u32)>, at: Readout) -> (r: String)
        requires
            old(self).past() < old(self).total(),
        ensures
            final(self).wf(),
            final(self).total() == old(self).total(),
            final(self).past() == old(self).past() + 1,
            r@ == (match command {
                Some((roll, throttle)) => tick_text(
                    old(self).past(),
                    at.x,
                    at.y,
                    at.z,
                    roll,
                    throttle,
                    at.routed,
                ),
                None => tick_text(old(self).past(), at.x, at.y, at.z, 0, 0, at.routed),
            }),
    {
        let (roll, throttle): (u32, u32) = match command {
            Some(c) => c,
            None => (0, 0),
        };
        let line: String = tick_line(self.tick, at.x, at.y, at.z, roll, throttle, at.routed);
        self.tick = self.tick + 1;
        line
    }
}

} // verus!
